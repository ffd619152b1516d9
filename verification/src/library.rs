//! Catalog rules: safe names for folders and files, tag lists, content
//! hashes, cue/loop validation and the bookkeeping of an import.
//!
//! The catalog itself (SQLite) and the files live outside this crate's
//! verified part; everything they are told to store is decided here.
use vstd::prelude::*;
use vstd::string::StrSliceExecFns;
use vstd::string::StringExecFns;
use crate::text::{push_char, push_str, push_decimal, decimal, str_eq, to_hex, hex_lower};
use crate::player::{LoopBuffer, spec_decode, decode_bytes, check_region, end_past_duration_message};
use crate::wav::{pcm16_bytes, pcm16_from_samples, pcm16_wav, spec_pcm16_wav};
use crate::import::swf::Sound;
use vstd::slice::{slice_subrange, slice_to_vec};

verus! {

/// Whether `c` is alphabetic or numeric in Unicode's sense.
pub uninterp spec fn alphanumeric(c: char) -> bool;

/// Whether `c` has Unicode's `White_Space` property.
pub uninterp spec fn whitespace(c: char) -> bool;

/// ASCII letters and digits.
pub open spec fn ascii_alphanumeric(c: char) -> bool {
    ('a' <= c && c <= 'z') || ('A' <= c && c <= 'Z') || ('0' <= c && c <= '9')
}

/// `char::is_alphanumeric`. Its documentation defines it as the Unicode
/// `Alphabetic` property or a numeric general category; within ASCII
/// these are exactly the letters and digits, which is all this contract
/// states beyond naming the result.
#[verifier::external_body]
fn is_alphanumeric(c: char) -> (r: bool)
    ensures
        r == alphanumeric(c),
        (c as u32) < 128 ==> (r <==> ascii_alphanumeric(c)),
{
    c.is_alphanumeric()
}

/// `char::is_whitespace`: the Unicode `White_Space` property. Within
/// ASCII that is tab, line feed, vertical tab, form feed, carriage return
/// and space, which is all this contract states beyond naming the result.
#[verifier::external_body]
fn is_whitespace(c: char) -> (r: bool)
    ensures
        r == whitespace(c),
        (c as u32) < 128 ==> (r <==> ((9 <= (c as u32) && (c as u32) <= 13) || c == ' ')),
{
    c.is_whitespace()
}

/// Letters and digits: within ASCII decided directly, beyond it by
/// Unicode's properties.
pub open spec fn letter_or_digit(c: char) -> bool {
    if (c as u32) < 128 {
        ascii_alphanumeric(c)
    } else {
        alphanumeric(c)
    }
}

/// Whitespace: within ASCII decided directly, beyond it by Unicode's
/// `White_Space` property.
pub open spec fn blank(c: char) -> bool {
    if (c as u32) < 128 {
        (9 <= (c as u32) && (c as u32) <= 13) || c == ' '
    } else {
        whitespace(c)
    }
}

/// Characters a name may keep: letters, digits and ` -_.()`.
pub open spec fn keeps(c: char) -> bool {
    letter_or_digit(c) || c == ' ' || c == '-' || c == '_' || c == '.' || c == '(' || c == ')'
}

/// Every character a name may not keep becomes `_`.
pub open spec fn replace_unsafe(s: Seq<char>) -> Seq<char> {
    s.map_values(|c: char| if keeps(c) { c } else { '_' })
}

/// Characters whose runs shrink to one: `_` (so replacements do not pile
/// up) and `.` (so no `..` survives).
pub open spec fn squeezed(c: char) -> bool {
    c == '_' || c == '.'
}

/// Each run of `_` and each run of `.` shrunk to one character.
pub open spec fn collapse_runs(s: Seq<char>) -> Seq<char>
    decreases s.len(),
{
    if s.len() == 0 {
        s
    } else {
        let head = collapse_runs(s.drop_last());
        if squeezed(s.last()) && s.len() >= 2 && s[s.len() - 2] == s.last() {
            head
        } else {
            head.push(s.last())
        }
    }
}

/// No two neighbouring characters are the same `_` or `.` (so no `__` and
/// no `..`).
pub open spec fn no_doubled(s: Seq<char>) -> bool {
    forall|i: int| 0 <= i < s.len() - 1 ==> !(squeezed(#[trigger] s[i]) && s[i] == s[i + 1])
}

/// What trimming removes at either end: whitespace, or (second pass) the
/// characters `.`, `_` and space.
pub open spec fn trimmed_away(c: char, ws: bool) -> bool {
    if ws {
        blank(c)
    } else {
        c == '.' || c == '_' || c == ' '
    }
}

pub open spec fn trim_front(s: Seq<char>, ws: bool) -> Seq<char>
    decreases s.len(),
{
    if s.len() > 0 && trimmed_away(s[0], ws) {
        trim_front(s.drop_first(), ws)
    } else {
        s
    }
}

pub open spec fn trim_back(s: Seq<char>, ws: bool) -> Seq<char>
    decreases s.len(),
{
    if s.len() > 0 && trimmed_away(s.last(), ws) {
        trim_back(s.drop_last(), ws)
    } else {
        s
    }
}

/// Both ends trimmed.
pub open spec fn trim_both(s: Seq<char>, ws: bool) -> Seq<char> {
    trim_back(trim_front(s, ws), ws)
}

/// Longest name kept, in characters.
pub const MAX_NAME_CHARS: usize = 80;

/// The safe name of `raw`: unsafe characters replaced by `_`, runs of `_`
/// and of `.` collapsed, whitespace and then `.`, `_`, space trimmed from both ends,
/// cut to 80 characters; `untitled` if nothing is left.
pub open spec fn safe_name(raw: Seq<char>) -> Seq<char> {
    let t = trim_both(trim_both(collapse_runs(replace_unsafe(raw)), true), false);
    let k = if t.len() <= MAX_NAME_CHARS { t } else { t.take(MAX_NAME_CHARS as int) };
    if k.len() == 0 {
        "untitled"@
    } else {
        k
    }
}

proof fn lemma_collapse_push(s: Seq<char>, c: char)
    ensures
        collapse_runs(s.push(c)) == if squeezed(c) && s.len() >= 1 && s.last() == c {
            collapse_runs(s)
        } else {
            collapse_runs(s).push(c)
        },
{
    assert(s.push(c).drop_last() =~= s);
    if s.len() >= 1 {
        assert(s.push(c)[s.push(c).len() - 2] == s.last());
    }
}

fn trims(c: char, ws: bool) -> (r: bool)
    ensures
        r == trimmed_away(c, ws),
{
    if ws {
        is_whitespace(c)
    } else {
        c == '.' || c == '_' || c == ' '
    }
}

fn keep_or_replace(c: char) -> (m: char)
    ensures
        m == if keeps(c) { c } else { '_' },
{
    if is_alphanumeric(c) || c == ' ' || c == '-' || c == '_' || c == '.' || c == '(' || c == ')' {
        c
    } else {
        '_'
    }
}

/// Narrows `[lo, hi)` of `v` to what trimming keeps.
fn trim_range(v: &Vec<char>, lo: usize, hi: usize, ws: bool) -> (r: (usize, usize))
    requires
        lo <= hi <= v@.len(),
    ensures
        lo <= r.0 <= r.1 <= hi,
        trim_both(v@.subrange(lo as int, hi as int), ws) == v@.subrange(r.0 as int, r.1 as int),
{
    let mut a = lo;
    while a < hi && trims(v[a], ws)
        invariant
            lo <= a <= hi <= v@.len(),
            trim_front(v@.subrange(lo as int, hi as int), ws) == trim_front(
                v@.subrange(a as int, hi as int),
                ws,
            ),
        decreases hi - a,
    {
        assert(v@.subrange(a as int, hi as int).drop_first() =~= v@.subrange(a + 1, hi as int));
        a = a + 1;
    }
    let mut b = hi;
    while b > a && trims(v[b - 1], ws)
        invariant
            lo <= a <= b <= hi <= v@.len(),
            trim_front(v@.subrange(lo as int, hi as int), ws) == v@.subrange(a as int, hi as int),
            trim_back(v@.subrange(a as int, hi as int), ws) == trim_back(
                v@.subrange(a as int, b as int),
                ws,
            ),
        decreases b - a,
    {
        assert(v@.subrange(a as int, b as int).drop_last() =~= v@.subrange(a as int, b - 1));
        b = b - 1;
    }
    (a, b)
}

/// Strip path separators, `..`, control characters; cap the length.
/// Never empty.
pub fn sanitize_name(raw: &str) -> (r: String)
    ensures
        r@ == safe_name(raw@),
{
    let n = raw.unicode_len();
    let mut v: Vec<char> = Vec::new();
    let mut i: usize = 0;
    let mut prev: char = ' ';
    while i < n
        invariant
            n == raw@.len(),
            i <= n,
            v@ == collapse_runs(replace_unsafe(raw@.take(i as int))),
            i > 0 ==> prev == replace_unsafe(raw@.take(i as int)).last(),
        decreases n - i,
    {
        let m = keep_or_replace(raw.get_char(i));
        let ghost before = replace_unsafe(raw@.take(i as int));
        proof {
            assert(replace_unsafe(raw@.take(i + 1)) =~= before.push(m));
            lemma_collapse_push(before, m);
        }
        if !((m == '_' || m == '.') && i > 0 && prev == m) {
            v.push(m);
        }
        prev = m;
        i = i + 1;
    }
    assert(raw@.take(n as int) =~= raw@);
    let (a, b) = trim_range(&v, 0, v.len(), true);
    assert(v@.subrange(0, v@.len() as int) =~= v@);
    let (c, d) = trim_range(&v, a, b, false);
    let end = if d - c <= MAX_NAME_CHARS {
        d
    } else {
        c + MAX_NAME_CHARS
    };
    let ghost t = v@.subrange(c as int, d as int);
    assert(v@.subrange(c as int, end as int) =~= if t.len() <= MAX_NAME_CHARS {
        t
    } else {
        t.take(MAX_NAME_CHARS as int)
    });
    if end == c {
        return "untitled".to_owned();
    }
    let mut out = String::new();
    let mut k = c;
    while k < end
        invariant
            c <= k <= end <= v@.len(),
            out@ == v@.subrange(c as int, k as int),
        decreases end - k,
    {
        push_char(&mut out, v[k]);
        assert(v@.subrange(c as int, k + 1) =~= v@.subrange(c as int, k as int).push(v@[k as int]));
        k = k + 1;
    }
    out
}

proof fn lemma_collapse_all(s: Seq<char>, p: spec_fn(char) -> bool)
    requires
        forall|i: int| 0 <= i < s.len() ==> p(#[trigger] s[i]),
    ensures
        forall|i: int|
            0 <= i < collapse_runs(s).len() ==> p(#[trigger] collapse_runs(s)[i]),
    decreases s.len(),
{
    if s.len() > 0 {
        let d = s.drop_last();
        assert forall|i: int| 0 <= i < d.len() implies p(#[trigger] d[i]) by {
            assert(d[i] == s[i]);
        }
        lemma_collapse_all(d, p);
        let h = collapse_runs(d);
        let last = s[s.len() - 1];
        assert(p(last));
        assert forall|i: int| 0 <= i < h.push(last).len() implies p(#[trigger] h.push(last)[i]) by {
            if i < h.len() {
                assert(h.push(last)[i] == h[i]);
            }
        }
    }
}

proof fn lemma_trim_front_suffix(s: Seq<char>, ws: bool)
    ensures
        trim_front(s, ws).len() <= s.len(),
        trim_front(s, ws) =~= s.subrange(s.len() - trim_front(s, ws).len(), s.len() as int),
        trim_front(s, ws).len() > 0 ==> !trimmed_away(trim_front(s, ws)[0], ws),
    decreases s.len(),
{
    if s.len() > 0 && trimmed_away(s[0], ws) {
        lemma_trim_front_suffix(s.drop_first(), ws);
    }
}

proof fn lemma_trim_back_prefix(s: Seq<char>, ws: bool)
    ensures
        trim_back(s, ws).len() <= s.len(),
        trim_back(s, ws) =~= s.take(trim_back(s, ws).len() as int),
    decreases s.len(),
{
    if s.len() > 0 && trimmed_away(s.last(), ws) {
        lemma_trim_back_prefix(s.drop_last(), ws);
    }
}

/// Collapsing leaves no doubled `_` or `.`, and keeps the last character.
proof fn lemma_collapse_no_doubled(s: Seq<char>)
    ensures
        no_doubled(collapse_runs(s)),
        s.len() > 0 ==> collapse_runs(s).len() > 0 && collapse_runs(s).last() == s.last(),
    decreases s.len(),
{
    if s.len() > 0 {
        let d = s.drop_last();
        lemma_collapse_no_doubled(d);
        let h = collapse_runs(d);
        let c = s.last();
        if !(squeezed(c) && s.len() >= 2 && s[s.len() - 2] == c) {
            assert forall|i: int| 0 <= i < h.push(c).len() - 1 implies !(squeezed(
                #[trigger] h.push(c)[i],
            ) && h.push(c)[i] == h.push(c)[i + 1]) by {
                assert(h.push(c)[i] == h[i]);
                if i + 1 < h.len() {
                    assert(h.push(c)[i + 1] == h[i + 1]);
                } else {
                    assert(d.len() > 0);
                    assert(h.last() == d.last());
                    assert(d.last() == s[s.len() - 2]);
                }
            }
        } else {
            assert(d.last() == s[s.len() - 2]);
        }
    }
}

proof fn lemma_no_doubled_subrange(s: Seq<char>, a: int, b: int)
    requires
        no_doubled(s),
        0 <= a <= b <= s.len(),
    ensures
        no_doubled(s.subrange(a, b)),
{
    let t = s.subrange(a, b);
    assert forall|i: int| 0 <= i < t.len() - 1 implies !(squeezed(#[trigger] t[i]) && t[i] == t[i
        + 1]) by {
        assert(t[i] == s[a + i]);
        assert(t[i + 1] == s[a + i + 1]);
    }
}

/// A safe name is never empty and at most 80 characters long; it holds no
/// path separator and no control character, it does not begin with `.`,
/// `_` or a space, and no `..` (nor `__`) occurs anywhere in it, so it can
/// name neither a path nor `.` or `..`.
pub proof fn lemma_safe_name_confined(raw: Seq<char>)
    ensures
        1 <= safe_name(raw).len() <= MAX_NAME_CHARS,
        forall|i: int|
            0 <= i < safe_name(raw).len() ==> {
                let c = #[trigger] safe_name(raw)[i];
                c != '/' && c != '\\' && (c as u32) >= 32 && c != '\u{7f}'
            },
        safe_name(raw)[0] != '.' && safe_name(raw)[0] != '_' && safe_name(raw)[0] != ' ',
        forall|i: int|
            0 <= i < safe_name(raw).len() - 1 ==> !(#[trigger] safe_name(raw)[i] == '.'
                && safe_name(raw)[i + 1] == '.'),
        no_doubled(safe_name(raw)),
{
    let ok = |c: char| c != '/' && c != '\\' && (c as u32) >= 32 && c != '\u{7f}';
    let m = replace_unsafe(raw);
    assert forall|i: int| 0 <= i < m.len() implies ok(#[trigger] m[i]) by {
        assert(m[i] == (if keeps(raw[i]) { raw[i] } else { '_' }));
    }
    lemma_collapse_all(m, ok);
    let c = collapse_runs(m);
    let w = trim_front(c, true);
    lemma_trim_front_suffix(c, true);
    let t1 = trim_back(w, true);
    lemma_trim_back_prefix(w, true);
    let x = trim_front(t1, false);
    lemma_trim_front_suffix(t1, false);
    let t = trim_back(x, false);
    lemma_trim_back_prefix(x, false);
    assert forall|i: int| 0 <= i < t.len() implies ok(#[trigger] t[i]) by {
        assert(t[i] == x[i]);
        assert(x[i] == t1[t1.len() - x.len() + i]);
        assert(t1[t1.len() - x.len() + i] == w[t1.len() - x.len() + i]);
        assert(w[t1.len() - x.len() + i] == c[c.len() - w.len() + t1.len() - x.len() + i]);
    }
    if t.len() > 0 {
        assert(t[0] == x[0]);
    }
    lemma_collapse_no_doubled(m);
    lemma_no_doubled_subrange(c, c.len() - w.len(), c.len() as int);
    assert(w =~= c.subrange(c.len() - w.len(), c.len() as int));
    lemma_no_doubled_subrange(w, 0, t1.len() as int);
    assert(t1 =~= w.subrange(0, t1.len() as int));
    lemma_no_doubled_subrange(t1, t1.len() - x.len(), t1.len() as int);
    assert(x =~= t1.subrange(t1.len() - x.len(), t1.len() as int));
    lemma_no_doubled_subrange(x, 0, t.len() as int);
    assert(t =~= x.subrange(0, t.len() as int));
    if t.len() > MAX_NAME_CHARS {
        lemma_no_doubled_subrange(t, 0, MAX_NAME_CHARS as int);
        assert(t.take(MAX_NAME_CHARS as int) =~= t.subrange(0, MAX_NAME_CHARS as int));
    }
    reveal_strlit("untitled");
    let u = "untitled"@;
    assert forall|i: int| 0 <= i < u.len() - 1 implies !(squeezed(#[trigger] u[i]) && u[i] == u[i
        + 1]) by {
        assert(!squeezed(u[i]));
    }
    let r = safe_name(raw);
    assert forall|i: int| 0 <= i < r.len() - 1 implies !(#[trigger] r[i] == '.' && r[i + 1]
        == '.') by {
        assert(!(squeezed(r[i]) && r[i] == r[i + 1]));
    }
}

/// The comma-separated pieces of `s`, empty ones included (`""` is one
/// empty piece).
pub open spec fn comma_pieces(s: Seq<char>) -> Seq<Seq<char>>
    decreases s.len(),
{
    if s.len() == 0 {
        seq![Seq::<char>::empty()]
    } else {
        let p = comma_pieces(s.drop_last());
        if s.last() == ',' {
            p.push(Seq::<char>::empty())
        } else {
            p.update(p.len() - 1, p.last().push(s.last()))
        }
    }
}

/// The safe names of `pieces`, without those that come out `untitled`,
/// joined by `, `.
pub open spec fn joined_tags(pieces: Seq<Seq<char>>) -> Seq<char>
    decreases pieces.len(),
{
    if pieces.len() == 0 {
        Seq::empty()
    } else {
        let acc = joined_tags(pieces.drop_last());
        let t = safe_name(pieces.last());
        if t == "untitled"@ {
            acc
        } else if acc.len() == 0 {
            t
        } else {
            acc + ", "@ + t
        }
    }
}

proof fn lemma_comma_pieces(s: Seq<char>, c: char)
    ensures
        comma_pieces(s).len() >= 1,
        comma_pieces(s.push(c)) == if c == ',' {
            comma_pieces(s).push(Seq::<char>::empty())
        } else {
            comma_pieces(s).update(
                comma_pieces(s).len() - 1,
                comma_pieces(s).last().push(c),
            )
        },
    decreases s.len(),
{
    if s.len() > 0 {
        lemma_comma_pieces(s.drop_last(), s.last());
    }
    assert(s.push(c).drop_last() =~= s);
}

/// Appends the safe name of `piece` as one more tag, unless it comes out
/// `untitled`.
fn add_tag(out: &mut String, piece: &str)
    ensures
        final(out)@ == ({
            let t = safe_name(piece@);
            if t == "untitled"@ {
                old(out)@
            } else if old(out)@.len() == 0 {
                t
            } else {
                old(out)@ + ", "@ + t
            }
        }),
{
    let t = sanitize_name(piece);
    if str_eq(t.as_str(), "untitled") {
        return;
    }
    if out.unicode_len() > 0 {
        push_str(out, ", ");
    } else {
        assert(old(out)@ =~= Seq::<char>::empty());
    }
    push_str(out, t.as_str());
}

/// Tags as stored: each comma-separated piece made a safe name, pieces
/// that come out `untitled` dropped, the rest joined by `, `.
pub fn normalize_tags(tags: &str) -> (r: String)
    ensures
        r@ == joined_tags(comma_pieces(tags@)),
{
    let n = tags.unicode_len();
    let mut out = String::new();
    let mut cur = String::new();
    let mut i: usize = 0;
    proof {
        assert(tags@.take(0) =~= Seq::<char>::empty());
        assert(comma_pieces(Seq::<char>::empty()).drop_last() =~= Seq::<Seq<char>>::empty());
    }
    while i < n
        invariant
            n == tags@.len(),
            i <= n,
            comma_pieces(tags@.take(i as int)).len() >= 1,
            out@ == joined_tags(comma_pieces(tags@.take(i as int)).drop_last()),
            cur@ == comma_pieces(tags@.take(i as int)).last(),
        decreases n - i,
    {
        let c = tags.get_char(i);
        let ghost p = comma_pieces(tags@.take(i as int));
        proof {
            assert(tags@.take(i + 1) =~= tags@.take(i as int).push(c));
            lemma_comma_pieces(tags@.take(i as int), c);
        }
        if c == ',' {
            add_tag(&mut out, cur.as_str());
            cur = String::new();
            proof {
                assert(p.push(Seq::<char>::empty()).drop_last() =~= p);
                assert(p.drop_last().push(p.last()) =~= p);
            }
        } else {
            push_char(&mut cur, c);
            proof {
                assert(p.update(p.len() - 1, p.last().push(c)).drop_last() =~= p.drop_last());
            }
        }
        i = i + 1;
    }
    add_tag(&mut out, cur.as_str());
    proof {
        let p = comma_pieces(tags@);
        assert(tags@.take(n as int) =~= tags@);
        assert(p.drop_last().push(p.last()) =~= p);
    }
    out
}

/// SHA-256 digest of `data`, as computed by the `sha2` crate.
pub uninterp spec fn sha256(data: Seq<u8>) -> Seq<u8>;

/// `Sha256::digest` of the `sha2` crate. The contract only names the
/// digest: it is a function of the bytes alone, 32 bytes long.
#[verifier::external_body]
fn sha256_digest(data: &[u8]) -> (r: [u8; 32])
    ensures
        r@ == sha256(data@),
{
    <sha2::Sha256 as sha2::Digest>::digest(data).into()
}

/// Content identity of a source file: its SHA-256 digest in lower-case
/// hexadecimal.
pub fn sha256_hex(data: &[u8]) -> (r: String)
    ensures
        r@ == hex_lower(sha256(data@)),
{
    let digest = sha256_digest(data);
    to_hex(&digest)
}

/// A `LoopBuffer` as a PCM16 WAV file.
pub fn loop_buffer_to_wav(buf: &LoopBuffer) -> (r: Vec<u8>)
    ensures
        r@ == spec_pcm16_wav(buf.channels, buf.rate, pcm16_bytes(buf.samples@)),
{
    let pcm = pcm16_from_samples(buf.samples.as_slice());
    pcm16_wav(buf.channels, buf.rate, pcm.as_slice())
}

/// The frames `[start, end)` that a gapless trim keeps of `frames`: from
/// the encoder delay `seek_samples` for `sample_count` frames (to the end
/// when 0), or nothing usable.
pub open spec fn gapless_bounds(frames: int, seek_samples: u16, sample_count: u32) -> Option<
    (int, int),
> {
    let start = seek_samples as int;
    let end = if sample_count > 0 {
        if start + sample_count <= frames {
            start + sample_count
        } else {
            frames
        }
    } else {
        frames
    };
    if start >= frames || end <= start {
        None
    } else {
        Some((start, end))
    }
}

/// The decoded MP3 cut to its gapless range: channels, rate and samples.
pub open spec fn spec_trim_gapless(mp3: Seq<u8>, seek_samples: u16, sample_count: u32) -> Option<
    (u16, u32, Seq<i16>),
> {
    if seek_samples == 0 && sample_count == 0 {
        None
    } else {
        match spec_decode(mp3) {
            Err(_) => None,
            Ok((c, rate, s)) => match gapless_bounds((s.len() / (c as nat)) as int, seek_samples, sample_count) {
                None => None,
                Some((a, b)) => Some((c, rate, s.subrange(a * c, b * c))),
            },
        }
    }
}

/// Gapless trimming keeps exactly the declared frames: when a sound
/// declares a sample count and decodes to at least `seek_samples +
/// sample_count` frames, the result is the decoded stream's frames
/// `[seek_samples, seek_samples + sample_count)`, with the stream's channels
/// and rate (also when there is no encoder delay, `seek_samples == 0`).
/// A sound that declares neither a delay nor a count is left alone, and
/// any result is a frame-aligned run of the decoded samples starting at
/// the delay.
pub proof fn lemma_trim_keeps_declared_frames(mp3: Seq<u8>, seek_samples: u16, sample_count: u32)
    ensures
        seek_samples == 0 && sample_count == 0 ==> spec_trim_gapless(mp3, seek_samples, sample_count)
            is None,
        spec_decode(mp3) matches Ok((c, rate, s)) ==> {
            &&& c >= 1
            &&& (sample_count > 0 && seek_samples + sample_count <= s.len() / (c as nat)) ==> {
                &&& spec_trim_gapless(mp3, seek_samples, sample_count) == Some(
                    (c, rate, s.subrange(seek_samples * c, (seek_samples + sample_count) * c)),
                )
                &&& s.subrange(seek_samples * c, (seek_samples + sample_count) * c).len()
                    == sample_count * c
            }
            &&& spec_trim_gapless(mp3, seek_samples, sample_count) matches Some((c2, r2, t)) ==> {
                &&& c2 == c && r2 == rate
                &&& t.len() % (c as nat) == 0
                &&& 0 < t.len()
                &&& seek_samples * c + t.len() <= s.len()
                &&& t == s.subrange(seek_samples * c, seek_samples * c + t.len())
            }
        },
{
    if let Ok((c, rate, s)) = spec_decode(mp3) {
        assert(c >= 1);
        let frames = (s.len() / (c as nat)) as int;
        let ci = c as int;
        assert(frames * ci <= s.len()) by (nonlinear_arith)
            requires
                frames == s.len() / (c as nat),
                ci >= 1,
                ci == c as nat,
        ;
        if let Some((a, b)) = gapless_bounds(frames, seek_samples, sample_count) {
            assert(a * ci <= b * ci <= frames * ci) by (nonlinear_arith)
                requires
                    a < b <= frames,
                    ci >= 1,
            ;
            assert(b * ci - a * ci == (b - a) * ci) by (nonlinear_arith);
            assert((b - a) * ci > 0) by (nonlinear_arith)
                requires
                    a < b,
                    ci >= 1,
            ;
            vstd::arithmetic::div_mod::lemma_mod_multiples_basic(b - a, ci);
        }
        if sample_count > 0 && seek_samples + sample_count <= frames {
            let a = seek_samples as int;
            let n = sample_count as int;
            assert((a + n) * ci - a * ci == n * ci) by (nonlinear_arith);
        }
    }
}

/// Decode MP3 bytes, keep frames `[seek_samples, seek_samples +
/// sample_count)`, and return that buffer with its WAV encoding. `None`
/// when there is nothing to trim, the bytes do not decode, or the range
/// is empty.
pub fn trim_mp3_gapless(mp3_bytes: &[u8], seek_samples: u16, sample_count: u32) -> (r: Option<
    (LoopBuffer, Vec<u8>),
>)
    ensures
        match spec_trim_gapless(mp3_bytes@, seek_samples, sample_count) {
            None => r is None,
            Some((c, rate, s)) => r matches Some((b, w)) && b.channels == c && b.rate == rate
                && b.samples@ == s && w@ == spec_pcm16_wav(c, rate, pcm16_bytes(s)),
        },
{
    if seek_samples == 0 && sample_count == 0 {
        return None;
    }
    let buf = match decode_bytes(mp3_bytes) {
        Ok(b) => b,
        Err(_) => return None,
    };
    let total = buf.frames();
    let channels = buf.channels as usize;
    let start = seek_samples as usize;
    let end: usize = if sample_count > 0 {
        if (start as u64) + (sample_count as u64) <= total as u64 {
            start + sample_count as usize
        } else {
            total
        }
    } else {
        total
    };
    if start >= total || end <= start {
        return None;
    }
    let n_samples = buf.samples.len();
    proof {
        let n = buf.samples@.len() as int;
        let c = channels as int;
        assert(end * c <= n && start * c <= end * c) by (nonlinear_arith)
            requires
                total == n / c,
                c >= 1,
                end <= total,
                start < end,
        ;
    }
    assert(start * channels <= buf.samples@.len());
    assert(end * channels <= buf.samples@.len());
    let from = start * channels;
    let to = end * channels;
    let samples = slice_to_vec(slice_subrange(buf.samples.as_slice(), from, to));
    let trimmed = LoopBuffer { samples, channels: buf.channels, rate: buf.rate };
    let wav = loop_buffer_to_wav(&trimmed);
    Some((trimmed, wav))
}

/// What an extracted sound becomes in the library: an MP3 that declares
/// an encoder delay or a sample count and trims cleanly is stored as the
/// trimmed WAV; anything else is stored as extracted.
pub open spec fn stored_sound(s: crate::import::swf::SoundView, decoded: (u16, u32, Seq<i16>)) -> (
    (u16, u32, Seq<i16>),
    Seq<u8>,
    Seq<char>,
) {
    if s.codec == "mp3"@ && (s.seek_samples > 0 || s.sample_count > 0) {
        match spec_trim_gapless(s.frames, s.seek_samples, s.sample_count) {
            Some((c, rate, t)) => ((c, rate, t), spec_pcm16_wav(c, rate, pcm16_bytes(t)), "wav"@),
            None => (decoded, s.frames, s.codec),
        }
    } else {
        (decoded, s.frames, s.codec)
    }
}

/// The buffer, file bytes and codec under which sound `s`, already
/// decoded as `decoded`, is stored.
pub fn prepare_sound(s: &Sound, decoded: LoopBuffer) -> (r: (LoopBuffer, Vec<u8>, String))
    ensures
        ({
            let (t, bytes, codec) = stored_sound(s@, (decoded.channels, decoded.rate, decoded.samples@));
            &&& (r.0.channels, r.0.rate, r.0.samples@) == t
            &&& r.1@ == bytes
            &&& r.2@ == codec
        }),
{
    if str_eq(s.codec.as_str(), "mp3") && (s.seek_samples > 0 || s.sample_count > 0) {
        match trim_mp3_gapless(s.frames.as_slice(), s.seek_samples, s.sample_count) {
            Some((trimmed, wav)) => {
                return (trimmed, wav, "wav".to_owned());
            },
            None => {},
        }
    }
    (decoded, slice_to_vec(s.frames.as_slice()), String::from_str(s.codec.as_str()))
}

/// `n` with at least two digits: a leading zero below 10.
pub open spec fn two_digits(n: nat) -> Seq<char> {
    if n < 10 {
        "0"@ + decimal(n)
    } else {
        decimal(n)
    }
}

fn push_two_digits(out: &mut String, n: u64)
    ensures
        final(out)@ == old(out)@ + two_digits(n as nat),
{
    if n < 10 {
        push_str(out, "0");
    }
    push_decimal(out, n);
    assert(final(out)@ =~= old(out)@ + two_digits(n as nat));
}

/// File name of the `index`-th sound (counting from 1) of a looper:
/// `NN_<id>.<codec>`.
pub fn sound_file_name(index: u64, id: u16, codec: &str) -> (r: String)
    ensures
        r@ == two_digits(index as nat) + "_"@ + decimal(id as nat) + "."@ + codec@,
{
    let mut out = String::new();
    push_two_digits(&mut out, index);
    push_str(&mut out, "_");
    push_decimal(&mut out, id as u64);
    push_str(&mut out, ".");
    push_str(&mut out, codec);
    assert(out@ =~= two_digits(index as nat) + "_"@ + decimal(id as nat) + "."@ + codec@);
    out
}

/// Title of the `index`-th sound (counting from 1) of a looper:
/// `NN · <looper>`.
pub fn sound_title(index: u64, looper: &str) -> (r: String)
    ensures
        r@ == two_digits(index as nat) + " \u{b7} "@ + looper@,
{
    let mut out = String::new();
    push_two_digits(&mut out, index);
    push_str(&mut out, " \u{b7} ");
    push_str(&mut out, looper);
    assert(out@ =~= two_digits(index as nat) + " \u{b7} "@ + looper@);
    out
}

/// A sound that could not be imported, and why.
#[derive(Debug, Clone)]
pub struct FailedSound {
    pub id: i64,
    pub reason: String,
}

/// Outcome of importing the sounds of one looper.
#[derive(Debug, Clone)]
pub struct ImportReport {
    pub looper: String,
    pub added: usize,
    pub already_there: usize,
    pub failed: Vec<FailedSound>,
    pub track_ids: Vec<i64>,
}

/// What routing one sound does to a report (`before` to `after`), and
/// whether the sound goes on to be decoded (`goes_on`): a known row (its
/// track id) counts as present; an empty payload fails as empty; any other
/// sound goes on with nothing recorded yet.
pub open spec fn sound_routed(
    before: ImportReport,
    after: ImportReport,
    id: i64,
    known: Option<i64>,
    payload_len: usize,
    goes_on: bool,
) -> bool {
    &&& after.consistent()
    &&& goes_on <==> known is None && payload_len > 0
    &&& after.looper@ == before.looper@
    &&& after.added == before.added
    &&& match known {
        Some(track) => {
            &&& after.already_there == before.already_there + 1
            &&& after.track_ids@ == before.track_ids@.push(track)
            &&& after.failed@ == before.failed@
        },
        None => {
            &&& after.already_there == before.already_there
            &&& after.track_ids@ == before.track_ids@
            &&& if payload_len == 0 {
                &&& after.failed@.len() == before.failed@.len() + 1
                &&& after.failed@.drop_last() == before.failed@
                &&& after.failed@.last().id == id
                &&& after.failed@.last().reason@ == "unsupported or empty sound"@
            } else {
                after.failed@ == before.failed@
            }
        },
    }
}

proof fn lemma_known_prefix(
    reports: Seq<ImportReport>,
    ids: Seq<i64>,
    known: Seq<i64>,
    lens: Seq<usize>,
    goes_on: Seq<bool>,
    k: int,
)
    requires
        reports.len() == known.len() + 1,
        ids.len() == known.len() && lens.len() == known.len() && goes_on.len() == known.len(),
        0 <= k <= known.len(),
        forall|i: int|
            0 <= i < known.len() ==> #[trigger] sound_routed(
                reports[i],
                reports[i + 1],
                ids[i],
                Some(known[i]),
                lens[i],
                goes_on[i],
            ),
    ensures
        reports[k].looper@ == reports[0].looper@,
        reports[k].added == reports[0].added,
        reports[k].already_there == reports[0].already_there + k,
        reports[k].failed@ == reports[0].failed@,
        reports[k].track_ids@ == reports[0].track_ids@ + known.take(k),
    decreases k,
{
    if k > 0 {
        lemma_known_prefix(reports, ids, known, lens, goes_on, k - 1);
        let j = k - 1;
        assert(sound_routed(reports[j], reports[j + 1], ids[j], Some(known[j]), lens[j], goes_on[j]));
        assert(reports[j + 1] == reports[k]);
        assert(known.take(k) =~= known.take(k - 1).push(known[k - 1]));
        assert(reports[0].track_ids@ + known.take(k) =~= (reports[0].track_ids@ + known.take(k
            - 1)).push(known[k - 1]));
    }
}

/// Importing again sounds that are all in the catalog already adds
/// nothing: routed one by one from a fresh report, every sound counts as
/// already there under its existing track id, in input order; none goes on
/// to decoding (so nothing is decoded, written or inserted) and none fails.
pub proof fn lemma_reimport_adds_nothing(
    reports: Seq<ImportReport>,
    ids: Seq<i64>,
    known: Seq<i64>,
    lens: Seq<usize>,
    goes_on: Seq<bool>,
)
    requires
        reports.len() == known.len() + 1,
        ids.len() == known.len() && lens.len() == known.len() && goes_on.len() == known.len(),
        reports[0].added == 0,
        reports[0].already_there == 0,
        reports[0].failed@.len() == 0,
        reports[0].track_ids@.len() == 0,
        forall|i: int|
            0 <= i < known.len() ==> #[trigger] sound_routed(
                reports[i],
                reports[i + 1],
                ids[i],
                Some(known[i]),
                lens[i],
                goes_on[i],
            ),
    ensures
        forall|i: int| 0 <= i < known.len() ==> !#[trigger] goes_on[i],
        reports.last().looper@ == reports[0].looper@,
        reports.last().added == 0,
        reports.last().already_there == known.len(),
        reports.last().failed@.len() == 0,
        reports.last().track_ids@ == known,
{
    lemma_known_prefix(reports, ids, known, lens, goes_on, known.len() as int);
    assert(known.take(known.len() as int) =~= known);
    assert(reports[0].track_ids@ + known =~= known);
    assert forall|i: int| 0 <= i < known.len() implies !#[trigger] goes_on[i] by {
        assert(sound_routed(reports[i], reports[i + 1], ids[i], Some(known[i]), lens[i], goes_on[i]));
    }
}

impl ImportReport {
    /// Every imported or already present sound has its track id listed,
    /// in the order the sounds were met.
    pub open spec fn consistent(&self) -> bool {
        self.track_ids@.len() == self.added + self.already_there
    }

    /// The report an import starts from: nothing counted yet, under the
    /// safe name of `looper`.
    pub fn begin(looper: &str) -> (r: ImportReport)
        ensures
            r.looper@ == safe_name(looper@),
            r.added == 0,
            r.already_there == 0,
            r.failed@.len() == 0,
            r.track_ids@.len() == 0,
            r.consistent(),
    {
        ImportReport {
            looper: sanitize_name(looper),
            added: 0,
            already_there: 0,
            failed: Vec::new(),
            track_ids: Vec::new(),
        }
    }

    /// A sound whose row was already in the catalog (track `id`).
    pub fn record_present(&mut self, id: i64)
        requires
            old(self).already_there < usize::MAX,
            old(self).consistent(),
        ensures
            final(self).already_there == old(self).already_there + 1,
            final(self).track_ids@ == old(self).track_ids@.push(id),
            final(self).added == old(self).added,
            final(self).failed@ == old(self).failed@,
            final(self).looper@ == old(self).looper@,
            final(self).consistent(),
    {
        self.already_there = self.already_there + 1;
        self.track_ids.push(id);
    }

    /// A sound newly added as track `id`.
    pub fn record_added(&mut self, id: i64)
        requires
            old(self).added < usize::MAX,
            old(self).consistent(),
        ensures
            final(self).added == old(self).added + 1,
            final(self).track_ids@ == old(self).track_ids@.push(id),
            final(self).already_there == old(self).already_there,
            final(self).failed@ == old(self).failed@,
            final(self).looper@ == old(self).looper@,
            final(self).consistent(),
    {
        self.added = self.added + 1;
        self.track_ids.push(id);
    }

    /// A sound that failed, with the reason shown to the user.
    pub fn record_failed(&mut self, id: i64, reason: String)
        requires
            old(self).consistent(),
        ensures
            final(self).failed@ == old(self).failed@.push(FailedSound { id, reason }),
            final(self).added == old(self).added,
            final(self).already_there == old(self).already_there,
            final(self).track_ids@ == old(self).track_ids@,
            final(self).looper@ == old(self).looper@,
            final(self).consistent(),
    {
        self.failed.push(FailedSound { id, reason });
    }

    /// A sound with no payload to store.
    pub fn record_empty(&mut self, id: i64)
        requires
            old(self).consistent(),
        ensures
            final(self).failed@.len() == old(self).failed@.len() + 1,
            final(self).failed@.drop_last() == old(self).failed@,
            final(self).failed@.last().id == id,
            final(self).failed@.last().reason@ == "unsupported or empty sound"@,
            final(self).added == old(self).added,
            final(self).already_there == old(self).already_there,
            final(self).track_ids@ == old(self).track_ids@,
            final(self).looper@ == old(self).looper@,
            final(self).consistent(),
    {
        self.record_failed(id, "unsupported or empty sound".to_owned());
        assert(self.failed@.drop_last() =~= old(self).failed@);
    }

    /// First step for a sound, before anything is written: one whose row
    /// is already in the catalog (`known`, its track id) counts as present;
    /// one with no payload fails as empty. Returns whether the sound goes
    /// on to be decoded and stored, in which case nothing is recorded yet.
    pub fn route_sound(&mut self, id: i64, known: Option<i64>, payload_len: usize) -> (r: bool)
        requires
            old(self).consistent(),
            old(self).already_there < usize::MAX,
        ensures
            sound_routed(*old(self), *final(self), id, known, payload_len, r),
    {
        match known {
            Some(track) => {
                self.record_present(track);
                false
            },
            None => {
                if payload_len == 0 {
                    self.record_empty(id);
                    false
                } else {
                    true
                }
            },
        }
    }

    /// Second step: the decode outcome of sound `id`. A failure is
    /// recorded with its message and the sound is skipped; a decoded
    /// buffer is handed back to be stored, with nothing recorded.
    pub fn route_decoded(&mut self, id: i64, decoded: Result<LoopBuffer, String>) -> (r: Option<
        LoopBuffer,
    >)
        requires
            old(self).consistent(),
        ensures
            final(self).consistent(),
            final(self).looper@ == old(self).looper@,
            final(self).added == old(self).added,
            final(self).already_there == old(self).already_there,
            final(self).track_ids@ == old(self).track_ids@,
            match decoded {
                Ok(b) => r == Some(b) && final(self).failed@ == old(self).failed@,
                Err(e) => r is None && final(self).failed@ == old(self).failed@.push(
                    FailedSound { id, reason: e },
                ),
            },
    {
        match decoded {
            Ok(b) => Some(b),
            Err(e) => {
                self.record_failed(id, e);
                None
            },
        }
    }

    /// Last step: the catalog answered for the stored sound with its track
    /// id and whether the row is new. A new row counts as added; an
    /// existing one (a race or a re-import) as already there.
    pub fn route_stored(&mut self, track: i64, inserted: bool)
        requires
            old(self).consistent(),
            old(self).added < usize::MAX,
            old(self).already_there < usize::MAX,
        ensures
            final(self).consistent(),
            final(self).looper@ == old(self).looper@,
            final(self).failed@ == old(self).failed@,
            final(self).track_ids@ == old(self).track_ids@.push(track),
            final(self).added == old(self).added + (if inserted { 1int } else { 0 }),
            final(self).already_there == old(self).already_there + (if inserted { 0int } else { 1 }),
    {
        if inserted {
            self.record_added(track);
        } else {
            self.record_present(track);
        }
    }

    /// Closes an import: it succeeded when at least one sound is now in
    /// the catalog; otherwise the report goes back with the error.
    pub fn finish(self) -> (r: Result<ImportReport, (ImportReport, String)>)
        ensures
            r is Ok <==> self.added + self.already_there > 0,
            r matches Ok(rep) ==> rep == self,
            r matches Err((rep, msg)) ==> rep == self && msg@ == "no sounds could be imported"@,
    {
        if self.added == 0 && self.already_there == 0 {
            return Err((self, "no sounds could be imported".to_owned()));
        }
        Ok(self)
    }
}

/// The refusal of an import with no sounds at all; the looper keeps the
/// name it was given.
pub fn nothing_to_import(looper: &str) -> (r: (ImportReport, String))
    ensures
        r.0.looper@ == looper@,
        r.0.added == 0 && r.0.already_there == 0,
        r.0.failed@.len() == 0 && r.0.track_ids@.len() == 0,
        r.1@ == "no extractable sounds"@,
{
    (
        ImportReport {
            looper: String::from_str(looper),
            added: 0,
            already_there: 0,
            failed: Vec::new(),
            track_ids: Vec::new(),
        },
        "no extractable sounds".to_owned(),
    )
}

/// A named cue/loop slot (A-D) attached to a track.
#[derive(Debug, Clone, PartialEq)]
pub struct LoopSlot {
    pub id: i64,
    pub track_id: i64,
    pub slot: i64,
    pub label: String,
    pub cue_ms: i64,
    pub loop_start_ms: i64,
    pub loop_end_ms: i64,
    pub enabled: bool,
}

/// Slots are numbered 1 to 4.
pub fn check_slot_number(slot: i64) -> (r: Result<(), String>)
    ensures
        r is Ok <==> 1 <= slot <= 4,
        r matches Err(m) ==> m@ == "slot must be 1\u{2013}4"@,
{
    if 1 <= slot && slot <= 4 {
        Ok(())
    } else {
        Err("slot must be 1\u{2013}4".to_owned())
    }
}

/// A slot's values must fit the track: the cue within its duration, the
/// loop inside it with the start before the end. Refused values get the
/// same message as a cue/loop edit of the track.
pub fn check_slot_values(cue_ms: i64, start_ms: i64, end_ms: i64, duration_ms: i64) -> (r: Result<
    (),
    String,
>)
    ensures
        r is Ok <==> 0 <= cue_ms <= duration_ms && 0 <= start_ms < end_ms <= duration_ms,
        r is Ok <==> cue_loop_error(cue_ms, start_ms, end_ms, duration_ms) is None,
        r matches Err(m) ==> cue_loop_error(cue_ms, start_ms, end_ms, duration_ms) == Some(m@),
{
    proof {
        assert(start_ms < 0 ==> (start_ms as u64) >= 0x8000_0000_0000_0000u64) by (bit_vector);
        assert(end_ms < 0 ==> (end_ms as u64) >= 0x8000_0000_0000_0000u64) by (bit_vector);
    }
    if cue_ms < 0 || cue_ms > duration_ms {
        return Err("cue outside track duration".to_owned());
    }
    let start = (#[verifier::truncate] (start_ms as u64));
    let end = (#[verifier::truncate] (end_ms as u64));
    check_region(start, end, duration_ms as u64)
}

/// Frames a catalog row counts: its stored total, or, for rows written
/// before totals were stored, what its duration gives at `rate`.
pub open spec fn row_total_frames(duration_ms: i64, rate: u32, total_frames: i64) -> int {
    if total_frames > 0 {
        total_frames as int
    } else {
        (duration_ms as int) * (rate as int) / 1000
    }
}

/// Why a cue/loop edit is refused, if it is.
pub open spec fn cue_loop_error(cue_ms: i64, start_ms: i64, end_ms: i64, duration_ms: i64) -> Option<
    Seq<char>,
> {
    if cue_ms < 0 || cue_ms > duration_ms {
        Some("cue outside track duration"@)
    } else if (end_ms as u64) > (duration_ms as u64) {
        Some(end_past_duration_message(end_ms as u64, duration_ms as u64))
    } else if (start_ms as u64) >= (end_ms as u64) {
        Some("loop start must be before loop end"@)
    } else {
        None
    }
}

/// Validates a cue point and loop (milliseconds) against a catalog row and
/// gives the loop's frames: start and end at the row's rate, cut to its
/// total, the end at least frame 1.
pub fn cue_loop_frames(
    cue_ms: i64,
    start_ms: i64,
    end_ms: i64,
    duration_ms: i64,
    sample_rate: i64,
    total_frames: i64,
) -> (r: Result<(i64, i64), String>)
    requires
        duration_ms < 0 || duration_ms * ((sample_rate as u32) as int) <= u64::MAX,
    ensures
        match cue_loop_error(cue_ms, start_ms, end_ms, duration_ms) {
            Some(m) => r matches Err(e) && e@ == m,
            None => r matches Ok((s, e)) && {
                let rate = (sample_rate as u32) as int;
                let total = row_total_frames(duration_ms, sample_rate as u32, total_frames);
                let a = (start_ms as u64) * rate / 1000;
                let b = (end_ms as u64) * rate / 1000;
                let m = if b < 1 { 1 } else { b };
                &&& s == if a <= total { a } else { total }
                &&& e == if m <= total { m } else { total }
            },
        },
{
    if cue_ms < 0 || cue_ms > duration_ms {
        return Err("cue outside track duration".to_owned());
    }
    let start = (#[verifier::truncate] (start_ms as u64));
    let end = (#[verifier::truncate] (end_ms as u64));
    let duration = duration_ms as u64;
    match check_region(start, end, duration) {
        Ok(()) => {},
        Err(e) => return Err(e),
    }
    let rate = (#[verifier::truncate] (sample_rate as u32));
    proof {
        let d = duration as int;
        let q = rate as int;
        assert(start * q <= d * q && end * q <= d * q) by (nonlinear_arith)
            requires
                start < end <= d,
                q >= 0,
        ;
    }
    let total: u64 = if total_frames > 0 {
        total_frames as u64
    } else {
        duration * rate as u64 / 1000
    };
    let a = start * rate as u64 / 1000;
    let b = end * rate as u64 / 1000;
    let s = if a <= total {
        a
    } else {
        total
    };
    let m: u64 = if b < 1 {
        1
    } else {
        b
    };
    let e = if m <= total {
        m
    } else {
        total
    };
    proof {
        assert(duration * (rate as int) / 1000 <= i64::MAX) by (nonlinear_arith)
            requires
                duration * (rate as int) <= u64::MAX,
        ;
    }
    Ok((s as i64, e as i64))
}

/// Catalog schema version this library reads and writes.
pub const SCHEMA_VERSION: i32 = 6;

/// Steps `2..k` that a catalog at version `v` still needs.
pub open spec fn later_steps(v: i32, k: int) -> Seq<i32>
    decreases k,
{
    if k <= 2 {
        Seq::empty()
    } else {
        let p = later_steps(v, k - 1);
        if v < k - 1 {
            p.push((k - 1) as i32)
        } else {
            p
        }
    }
}

/// The migration steps (step `k` takes the schema from version `k - 1` to
/// `k`) a catalog at version `v` goes through: the initial tables only
/// from version 0, then every later step above `v`.
pub open spec fn spec_migration_steps(v: i32) -> Seq<i32> {
    (if v == 0 {
        seq![1i32]
    } else {
        Seq::empty()
    }) + later_steps(v, SCHEMA_VERSION + 1)
}

/// Plans the migration of a catalog at version `v`; a catalog from a
/// newer release is refused.
pub fn migration_steps(v: i32) -> (r: Result<Vec<i32>, String>)
    ensures
        r is Err <==> v > SCHEMA_VERSION,
        r matches Ok(steps) ==> steps@ == spec_migration_steps(v),
        r matches Err(m) ==> m@ == "database schema v"@ + decimal(v as nat)
            + " is newer than supported v6"@,
{
    if v > SCHEMA_VERSION {
        let mut m = String::new();
        push_str(&mut m, "database schema v");
        push_decimal(&mut m, v as u64);
        push_str(&mut m, " is newer than supported v6");
        return Err(m);
    }
    let mut steps: Vec<i32> = Vec::new();
    if v == 0 {
        steps.push(1);
    }
    assert(steps@ =~= (if v == 0 {
        seq![1i32]
    } else {
        Seq::empty()
    }) + later_steps(v, 2));
    let mut k: i32 = 2;
    while k <= SCHEMA_VERSION
        invariant
            2 <= k <= SCHEMA_VERSION + 1,
            steps@ == (if v == 0 {
                seq![1i32]
            } else {
                Seq::empty()
            }) + later_steps(v, k as int),
        decreases SCHEMA_VERSION + 1 - k,
    {
        let ghost first = if v == 0 {
            seq![1i32]
        } else {
            Seq::<i32>::empty()
        };
        if v < k {
            steps.push(k);
            assert(steps@ =~= first + later_steps(v, k + 1));
        }
        k = k + 1;
    }
    Ok(steps)
}

/// Migrations only go forward: every planned step lies above the current
/// version and at most the supported one, steps come in increasing order,
/// and an older catalog always ends at the supported version.
pub proof fn lemma_migration_forward_only(v: i32)
    requires
        v <= SCHEMA_VERSION,
    ensures
        forall|i: int|
            0 <= i < spec_migration_steps(v).len() ==> v < #[trigger] spec_migration_steps(v)[i]
                <= SCHEMA_VERSION,
        forall|i: int, j: int|
            0 <= i < j < spec_migration_steps(v).len() ==> spec_migration_steps(v)[i]
                < spec_migration_steps(v)[j],
        0 <= v < SCHEMA_VERSION ==> spec_migration_steps(v).last() == SCHEMA_VERSION,
        v == SCHEMA_VERSION ==> spec_migration_steps(v).len() == 0,
{
    lemma_later_steps(v, SCHEMA_VERSION + 1);
    let first = if v == 0 { seq![1i32] } else { Seq::<i32>::empty() };
    let later = later_steps(v, SCHEMA_VERSION + 1);
    let all = spec_migration_steps(v);
    assert(all == first + later);
    assert forall|i: int| 0 <= i < all.len() implies v < #[trigger] all[i] <= SCHEMA_VERSION by {
        if i >= first.len() {
            assert(all[i] == later[i - first.len()]);
        }
    }
    assert forall|i: int, j: int| 0 <= i < j < all.len() implies all[i] < all[j] by {
        if j >= first.len() {
            assert(all[j] == later[j - first.len()]);
        }
        if i >= first.len() {
            assert(all[i] == later[i - first.len()]);
        }
    }
    if 0 <= v < SCHEMA_VERSION {
        assert(later.len() > 0);
        assert(all.last() == later.last());
    }
}

proof fn lemma_later_steps(v: i32, k: int)
    requires
        k <= SCHEMA_VERSION + 1,
    ensures
        forall|i: int| 0 <= i < later_steps(v, k).len() ==> v < #[trigger] later_steps(v, k)[i] < k
            && later_steps(v, k)[i] >= 2,
        forall|i: int, j: int|
            0 <= i < j < later_steps(v, k).len() ==> later_steps(v, k)[i] < later_steps(v, k)[j],
        k > 2 && v < k - 1 ==> later_steps(v, k).len() > 0 && later_steps(v, k).last() == k - 1,
    decreases k,
{
    if k > 2 {
        lemma_later_steps(v, k - 1);
        let p = later_steps(v, k - 1);
        if v < k - 1 {
            assert forall|i: int| 0 <= i < p.push((k - 1) as i32).len() implies v < #[trigger] p.push(
                (k - 1) as i32,
            )[i] < k && p.push((k - 1) as i32)[i] >= 2 by {
                if i < p.len() {
                    assert(p.push((k - 1) as i32)[i] == p[i]);
                }
            }
            let q = p.push((k - 1) as i32);
            assert forall|i: int, j: int| 0 <= i < j < q.len() implies #[trigger] q[i] < #[trigger] q[j] by {
                assert(q[i] == p[i]);
                if j < p.len() {
                    assert(q[j] == p[j]);
                }
            }
        }
    }
}

} // verus!
