//! Flash-projector `.exe` handling: locate an embedded SWF, then reuse
//! the [`crate::import::swf`] pipeline. The file is data; never executed.
use vstd::prelude::*;
use crate::bytes::{le32, read_le32};
use crate::import::swf::{
    SwfError, SwfErrorView, SwfSounds, SwfSoundsView, parse, spec_parse,
    declared_len, MAX_VERSION, swf_error_text, push_error_text, swf_user_message,
};
use crate::text::{decimal, push_decimal, push_str};

verus! {

/// Cap on stored scan candidates (scan itself is a single linear pass).
pub const MAX_CANDIDATES: usize = 4096;

#[derive(Debug, Clone, PartialEq, Eq)]
pub enum ExeError {
    TooSmall,
    NotAnExe,
    UnsupportedExe { candidates: usize, detail: &'static str },
    Swf(SwfError),
}

pub enum ExeErrorView {
    TooSmall,
    NotAnExe,
    UnsupportedExe { candidates: usize, detail: Seq<char> },
    Swf(SwfErrorView),
}

impl View for ExeError {
    type V = ExeErrorView;

    open spec fn view(&self) -> ExeErrorView {
        match self {
            ExeError::TooSmall => ExeErrorView::TooSmall,
            ExeError::NotAnExe => ExeErrorView::NotAnExe,
            ExeError::UnsupportedExe { candidates, detail } => ExeErrorView::UnsupportedExe {
                candidates: *candidates,
                detail: detail@,
            },
            ExeError::Swf(e) => ExeErrorView::Swf(e@),
        }
    }
}

/// Location of an embedded SWF inside the `.exe`.
#[derive(Debug, Clone, Copy, PartialEq, Eq)]
pub struct EmbeddedSwf {
    pub offset: usize,
    pub length: usize,
}

/// A SWF magic (`FWS`, `CWS` or `ZWS`) at `off`.
pub open spec fn magic_at(data: Seq<u8>, off: int) -> bool {
    &&& data[off] == 70u8 || data[off] == 67u8 || data[off] == 90u8
    &&& data[off + 1] == 87u8
    &&& data[off + 2] == 83u8
}

/// The length a header at `off` declares: the movie's size once
/// uncompressed.
pub open spec fn declared_at(data: Seq<u8>, off: int) -> int {
    le32(data, off + 4)
}

/// The bytes a candidate at `off` takes: a zlib-compressed (`CWS`) movie
/// everything up to the end of the file; an `FWS` or `ZWS` one its declared
/// length.
pub open spec fn stored_length(data: Seq<u8>, off: int) -> int {
    if data[off] == 67u8 {
        data.len() - off
    } else {
        declared_at(data, off)
    }
}

/// An 8-byte SWF header at `off` with a sane version and a declared length
/// of at least a header; an `FWS` or `ZWS` movie's declared length must fit
/// inside the file.
pub open spec fn is_candidate(data: Seq<u8>, off: int) -> bool {
    &&& 0 <= off
    &&& off + 8 <= data.len()
    &&& magic_at(data, off)
    &&& 1 <= data[off + 3] <= MAX_VERSION
    &&& declared_at(data, off) >= 8
    &&& data[off] != 67u8 ==> off + declared_at(data, off) <= data.len()
}

/// Candidates at offsets below `n`, in file order.
pub open spec fn candidates_upto(data: Seq<u8>, n: int) -> Seq<EmbeddedSwf>
    decreases n,
{
    if n <= 0 {
        seq![]
    } else {
        let prev = candidates_upto(data, n - 1);
        if is_candidate(data, n - 1) {
            prev.push(
                EmbeddedSwf { offset: (n - 1) as usize, length: stored_length(data, n - 1) as usize },
            )
        } else {
            prev
        }
    }
}

/// Every header candidate in file order, keeping the first
/// [`MAX_CANDIDATES`].
pub open spec fn spec_scan(data: Seq<u8>) -> Seq<EmbeddedSwf> {
    if data.len() < 8 {
        seq![]
    } else {
        let all = candidates_upto(data, data.len() - 7);
        if all.len() > MAX_CANDIDATES {
            all.take(MAX_CANDIDATES as int)
        } else {
            all
        }
    }
}

/// A candidate is uncompressed when its magic is `FWS`.
pub open spec fn fws_at(data: Seq<u8>, c: EmbeddedSwf) -> bool {
    data[c.offset as int] == 70u8
}

/// `ZWS` (LZMA) candidates are never parsed.
pub open spec fn zws_at(data: Seq<u8>, c: EmbeddedSwf) -> bool {
    data[c.offset as int] == 90u8
}

/// The bytes a candidate covers.
pub open spec fn candidate_bytes(data: Seq<u8>, c: EmbeddedSwf) -> Seq<u8> {
    data.subrange(c.offset as int, c.offset + c.length)
}

/// A candidate that is not LZMA-compressed and parses as a SWF.
pub open spec fn candidate_ok(data: Seq<u8>, c: EmbeddedSwf) -> bool {
    !zws_at(data, c) && spec_parse(candidate_bytes(data, c)) is Ok
}

/// Validation order: largest declared (uncompressed) length first, `FWS`
/// before compressed on ties, then file order. The stored slice does not
/// count: a compressed one runs to the end of the file.
pub open spec fn tried_before(data: Seq<u8>, a: EmbeddedSwf, b: EmbeddedSwf) -> bool {
    let la = declared_at(data, a.offset as int);
    let lb = declared_at(data, b.offset as int);
    ||| la > lb
    ||| la == lb && fws_at(data, a) && !fws_at(data, b)
    ||| la == lb && fws_at(data, a) == fws_at(data, b) && a.offset < b.offset
}

/// The candidate that validation accepts: it parses, and comes before
/// every other candidate that parses.
pub open spec fn best_candidate(data: Seq<u8>, c: EmbeddedSwf) -> bool {
    &&& spec_scan(data).contains(c)
    &&& candidate_ok(data, c)
    &&& forall|d: EmbeddedSwf|
        #![trigger spec_scan(data).contains(d), candidate_ok(data, d)]
        spec_scan(data).contains(d) && candidate_ok(data, d) && d != c ==> tried_before(data, c, d)
}

/// `MZ` header, then the best candidate, or why none was found.
pub open spec fn spec_locate(data: Seq<u8>) -> Result<EmbeddedSwf, ExeErrorView> {
    if data.len() < 2 {
        Err(ExeErrorView::TooSmall)
    } else if !(data[0] == 77u8 && data[1] == 90u8) {
        Err(ExeErrorView::NotAnExe)
    } else if exists|c: EmbeddedSwf| best_candidate(data, c) {
        Ok(choose|c: EmbeddedSwf| best_candidate(data, c))
    } else {
        Err(
            ExeErrorView::UnsupportedExe {
                candidates: spec_scan(data).len() as usize,
                detail: if exists|c: EmbeddedSwf| spec_scan(data).contains(c) && zws_at(data, c) {
                    "only LZMA-compressed candidates"@
                } else {
                    "no candidate parsed as SWF"@
                },
            },
        )
    }
}

/// Locate and parse in one step.
pub open spec fn spec_extract(data: Seq<u8>) -> Result<SwfSoundsView, ExeErrorView> {
    match spec_locate(data) {
        Err(e) => Err(e),
        Ok(c) => match spec_parse(candidate_bytes(data, c)) {
            Ok(s) => Ok(s),
            Err(e) => Err(ExeErrorView::Swf(e)),
        },
    }
}

proof fn lemma_candidates_upto(data: Seq<u8>, n: int)
    requires
        n <= data.len() <= usize::MAX,
    ensures
        forall|i: int|
            0 <= i < candidates_upto(data, n).len() ==> {
                let c = #[trigger] candidates_upto(data, n)[i];
                &&& c.offset < n
                &&& is_candidate(data, c.offset as int)
                &&& c.length == stored_length(data, c.offset as int)
            },
        forall|i: int, j: int|
            0 <= i < j < candidates_upto(data, n).len() ==> (#[trigger] candidates_upto(data, n)[i]).offset
                < (#[trigger] candidates_upto(data, n)[j]).offset,
    decreases n,
{
    if n > 0 {
        lemma_candidates_upto(data, n - 1);
        let prev = candidates_upto(data, n - 1);
        if is_candidate(data, n - 1) {
            let c = EmbeddedSwf {
                offset: (n - 1) as usize,
                length: stored_length(data, n - 1) as usize,
            };
            assert(candidates_upto(data, n) == prev.push(c));
            assert(c.offset == n - 1);
            assert(0 <= stored_length(data, n - 1) <= usize::MAX);
            assert(c.length == stored_length(data, n - 1));
        }
    }
}

proof fn lemma_scan_props(data: Seq<u8>)
    requires
        data.len() <= usize::MAX,
    ensures
        spec_scan(data).len() <= MAX_CANDIDATES,
        forall|i: int|
            0 <= i < spec_scan(data).len() ==> {
                let c = #[trigger] spec_scan(data)[i];
                &&& is_candidate(data, c.offset as int)
                &&& c.length == stored_length(data, c.offset as int)
            },
        forall|i: int, j: int|
            0 <= i < j < spec_scan(data).len() ==> (#[trigger] spec_scan(data)[i]).offset
                < (#[trigger] spec_scan(data)[j]).offset,
{
    if data.len() >= 8 {
        lemma_candidates_upto(data, data.len() - 7);
    }
}

/// Reads the magic, version and declared length at `off`, if all 8 header
/// bytes are inside `data` and the magic is a SWF one.
fn is_magic_at(data: &[u8], off: usize) -> (r: Option<(&'static str, u8, u32)>)
    ensures
        match r {
            Some((_, version, length)) => off + 8 <= data@.len() && magic_at(data@, off as int)
                && version == data@[off + 3] && length as int == le32(data@, off + 4),
            None => !(off + 8 <= data@.len() && magic_at(data@, off as int)),
        },
{
    if off > data.len() || data.len() - off < 8 {
        return None;
    }
    let magic = if data[off] == 70 && data[off + 1] == 87 && data[off + 2] == 83 {
        "FWS"
    } else if data[off] == 67 && data[off + 1] == 87 && data[off + 2] == 83 {
        "CWS"
    } else if data[off] == 90 && data[off + 1] == 87 && data[off + 2] == 83 {
        "ZWS"
    } else {
        return None;
    };
    let version = data[off + 3];
    let length = read_le32(data, off + 4);
    Some((magic, version, length))
}

/// Raw scan: every magic occurrence with a sane version and a length that
/// fits inside the file. Cheap checks only; full validation happens in
/// [`locate`] on the largest candidates first.
pub fn scan(data: &[u8]) -> (out: Vec<EmbeddedSwf>)
    ensures
        out@ == spec_scan(data@),
{
    let mut out: Vec<EmbeddedSwf> = Vec::new();
    if data.len() < 8 {
        return out;
    }
    let ghost all = candidates_upto(data@, data@.len() - 7);
    let mut off: usize = 0;
    while off < data.len() - 7
        invariant
            8 <= data@.len(),
            off <= data@.len() - 7,
            all == candidates_upto(data@, data@.len() - 7),
            out@ == (if candidates_upto(data@, off as int).len() > MAX_CANDIDATES {
                candidates_upto(data@, off as int).take(MAX_CANDIDATES as int)
            } else {
                candidates_upto(data@, off as int)
            }),
        decreases data@.len() - off,
    {
        let ghost prev = candidates_upto(data@, off as int);
        match is_magic_at(data, off) {
            None => {},
            Some((_, version, length)) => {
                let cws = data[off] == 67;
                let len: usize = if cws {
                    data.len() - off
                } else {
                    length as usize
                };
                if version != 0 && version <= MAX_VERSION && length >= 8 && (cws || (length as usize)
                    <= data.len() - off) {
                    if out.len() < MAX_CANDIDATES {
                        out.push(EmbeddedSwf { offset: off, length: len });
                    }
                    proof {
                        let next = candidates_upto(data@, off + 1);
                        assert(next == prev.push(EmbeddedSwf { offset: off, length: len }));
                        if prev.len() >= MAX_CANDIDATES {
                            assert(next.take(MAX_CANDIDATES as int) =~= prev.take(
                                MAX_CANDIDATES as int,
                            ));
                        }
                    }
                }
            },
        }
        off = off + 1;
    }
    out
}


proof fn lemma_order(data: Seq<u8>, a: EmbeddedSwf, b: EmbeddedSwf, c: EmbeddedSwf)
    ensures
        !(tried_before(data, a, b) && tried_before(data, b, a)),
        tried_before(data, a, b) && tried_before(data, b, c) ==> tried_before(data, a, c),
        a.offset != b.offset ==> tried_before(data, a, b) || tried_before(data, b, a),
{
}

/// Whether candidate `a` is validated before candidate `b`.
fn before(data: &[u8], a: EmbeddedSwf, b: EmbeddedSwf) -> (r: bool)
    requires
        a.offset + 8 <= data@.len(),
        b.offset + 8 <= data@.len(),
    ensures
        r == tried_before(data@, a, b),
{
    let fa = data[a.offset] == 70;
    let fb = data[b.offset] == 70;
    let la = read_le32(data, a.offset + 4);
    let lb = read_le32(data, b.offset + 4);
    la > lb || (la == lb && fa && !fb) || (la == lb && fa == fb && a.offset < b.offset)
}

/// The candidates in validation order (a stable sort on length, then
/// `FWS` first).
fn sort_candidates(data: &[u8], cands: &Vec<EmbeddedSwf>) -> (sorted: Vec<EmbeddedSwf>)
    requires
        forall|i: int| 0 <= i < cands@.len() ==> (#[trigger] cands@[i]).offset + 8 <= data@.len(),
        forall|i: int, j: int|
            0 <= i < j < cands@.len() ==> (#[trigger] cands@[i]).offset < (#[trigger] cands@[j]).offset,
    ensures
        forall|i: int, j: int|
            0 <= i < j < sorted@.len() ==> tried_before(data@, #[trigger] sorted@[i], #[trigger] sorted@[j]),
        forall|x: EmbeddedSwf| #[trigger] sorted@.contains(x) <==> cands@.contains(x),
{
    let mut sorted: Vec<EmbeddedSwf> = Vec::new();
    let mut k: usize = 0;
    while k < cands.len()
        invariant
            k <= cands@.len(),
            forall|i: int| 0 <= i < cands@.len() ==> (#[trigger] cands@[i]).offset + 8 <= data@.len(),
            forall|i: int, j: int|
                0 <= i < j < cands@.len() ==> (#[trigger] cands@[i]).offset < (#[trigger] cands@[j]).offset,
            forall|i: int, j: int|
                0 <= i < j < sorted@.len() ==> tried_before(data@, #[trigger] sorted@[i], #[trigger] sorted@[j]),
            forall|x: EmbeddedSwf| #[trigger] sorted@.contains(x) <==> cands@.subrange(0, k as int).contains(x),
            forall|i: int| 0 <= i < sorted@.len() ==> (#[trigger] sorted@[i]).offset + 8 <= data@.len(),
        decreases cands@.len() - k,
    {
        let x = cands[k];
        let mut p: usize = 0;
        while p < sorted.len() && !before(data, x, sorted[p])
            invariant
                p <= sorted@.len(),
                x == cands@[k as int],
                k < cands@.len(),
                forall|i: int| 0 <= i < cands@.len() ==> (#[trigger] cands@[i]).offset + 8 <= data@.len(),
                forall|x: EmbeddedSwf| #[trigger] sorted@.contains(x) <==> cands@.subrange(0, k as int).contains(x),
                forall|i: int| 0 <= i < p ==> !tried_before(data@, x, #[trigger] sorted@[i]),
                forall|i: int| 0 <= i < sorted@.len() ==> (#[trigger] sorted@[i]).offset + 8 <= data@.len(),
            decreases sorted@.len() - p,
        {
            proof {
                assert(sorted@.contains(sorted@[p as int]));
            }
            p = p + 1;
        }
        let ghost old_sorted = sorted@;
        proof {
            assert forall|i: int| 0 <= i < old_sorted.len() implies (#[trigger] old_sorted[i]).offset
                != x.offset by {
                assert(old_sorted.contains(old_sorted[i]));
                let j = choose|j: int| 0 <= j < k && cands@.subrange(0, k as int)[j] == old_sorted[i];
                assert(cands@[j] == old_sorted[i]);
            }
        }
        sorted.insert(p, x);
        proof {
            assert forall|i: int, j: int| 0 <= i < j < sorted@.len() implies tried_before(
                data@,
                #[trigger] sorted@[i],
                #[trigger] sorted@[j],
            ) by {
                if i < p && j == p {
                    lemma_order(data@, old_sorted[i], x, x);
                } else if i == p && j > p {
                    lemma_order(data@, x, old_sorted[p as int], old_sorted[j - 1]);
                    if j - 1 > p {
                        assert(tried_before(data@, old_sorted[p as int], old_sorted[j - 1]));
                    }
                }
            }
            let pre = cands@.subrange(0, k as int);
            let pre1 = cands@.subrange(0, k + 1);
            assert(pre1 =~= pre.push(x));
            assert forall|y: EmbeddedSwf| sorted@.contains(y) implies #[trigger] pre1.contains(y) by {
                let j = choose|j: int| 0 <= j < sorted@.len() && sorted@[j] == y;
                if j < p {
                    assert(old_sorted[j] == y);
                    assert(old_sorted.contains(y));
                    assert(pre.contains(y));
                    let m = choose|m: int| 0 <= m < pre.len() && pre[m] == y;
                    assert(pre1[m] == y);
                } else if j > p {
                    assert(old_sorted[j - 1] == y);
                    assert(old_sorted.contains(y));
                    assert(pre.contains(y));
                    let m = choose|m: int| 0 <= m < pre.len() && pre[m] == y;
                    assert(pre1[m] == y);
                } else {
                    assert(pre1[k as int] == y);
                }
            }
            assert forall|y: EmbeddedSwf| pre1.contains(y) implies #[trigger] sorted@.contains(y) by {
                let m = choose|m: int| 0 <= m < pre1.len() && pre1[m] == y;
                if m < k {
                    assert(pre[m] == y);
                    assert(pre.contains(y));
                    assert(old_sorted.contains(y));
                    let j = choose|j: int| 0 <= j < old_sorted.len() && old_sorted[j] == y;
                    if j < p {
                        assert(sorted@[j] == y);
                    } else {
                        assert(sorted@[j + 1] == y);
                    }
                } else {
                    assert(sorted@[p as int] == y);
                }
            }
            assert forall|y: EmbeddedSwf| #[trigger] sorted@.contains(y) <==> pre1.contains(y) by {
                if sorted@.contains(y) {
                    assert(pre1.contains(y));
                }
                if pre1.contains(y) {
                    assert(sorted@.contains(y));
                }
            }
        }
        k = k + 1;
    }
    proof {
        assert(cands@.subrange(0, cands@.len() as int) =~= cands@);
    }
    sorted
}


proof fn lemma_best_unique(data: Seq<u8>, a: EmbeddedSwf, b: EmbeddedSwf)
    requires
        best_candidate(data, a),
        best_candidate(data, b),
    ensures
        a == b,
{
    if a != b {
        assert(tried_before(data, a, b));
        assert(tried_before(data, b, a));
        lemma_order(data, a, b, a);
    }
}

/// Parses a candidate's bytes; candidates always declare at least a header.
fn parse_candidate(data: &[u8], c: EmbeddedSwf) -> (r: Result<SwfSounds, SwfError>)
    requires
        is_candidate(data@, c.offset as int),
        c.length == stored_length(data@, c.offset as int),
    ensures
        match r {
            Ok(s) => spec_parse(candidate_bytes(data@, c)) == Ok::<SwfSoundsView, SwfErrorView>(s@),
            Err(e) => spec_parse(candidate_bytes(data@, c)) == Err::<SwfSoundsView, SwfErrorView>(e@),
        },
{
    proof {
        assert(data@.len() == data.len());
    }
    let bytes = &data[c.offset..c.offset + c.length];
    proof {
        let b = bytes@;
        assert(b =~= candidate_bytes(data@, c));
        assert(b[4] == data@[c.offset + 4]);
        assert(b[5] == data@[c.offset + 5]);
        assert(b[6] == data@[c.offset + 6]);
        assert(b[7] == data@[c.offset + 7]);
        assert(declared_len(b) == le32(data@, c.offset + 4));
    }
    parse(bytes)
}

/// Locate the embedded SWF: MZ check, scan, then validate largest-first.
/// The first candidate that fully parses wins.
pub fn locate(data: &[u8]) -> (r: Result<EmbeddedSwf, ExeError>)
    ensures
        match r {
            Ok(c) => spec_locate(data@) == Ok::<EmbeddedSwf, ExeErrorView>(c),
            Err(e) => spec_locate(data@) == Err::<EmbeddedSwf, ExeErrorView>(e@),
        },
{
    if data.len() < 2 {
        return Err(ExeError::TooSmall);
    }
    if !(data[0] == 77 && data[1] == 90) {
        return Err(ExeError::NotAnExe);
    }
    let cands = scan(data);
    proof {
        assert(data@.len() == data.len());
        lemma_scan_props(data@);
    }
    // Largest first; FWS preferred on ties (simpler container, fewer false positives).
    let sorted = sort_candidates(data, &cands);
    let ghost sc = spec_scan(data@);
    let mut saw_zws = false;
    let mut j: usize = 0;
    while j < sorted.len()
        invariant
            j <= sorted@.len(),
            cands@ == sc,
            sc == spec_scan(data@),
            forall|i: int|
                0 <= i < sc.len() ==> {
                    let c = #[trigger] sc[i];
                    &&& is_candidate(data@, c.offset as int)
                    &&& c.length == stored_length(data@, c.offset as int)
                },
            forall|i: int, k: int|
                0 <= i < k < sorted@.len() ==> tried_before(data@, #[trigger] sorted@[i], #[trigger] sorted@[k]),
            forall|x: EmbeddedSwf| #[trigger] sorted@.contains(x) <==> sc.contains(x),
            forall|i: int| 0 <= i < j ==> !candidate_ok(data@, #[trigger] sorted@[i]),
            saw_zws <==> exists|i: int| 0 <= i < j && zws_at(data@, #[trigger] sorted@[i]),
            data@.len() >= 2,
            data@[0] == 77u8 && data@[1] == 90u8,
        decreases sorted@.len() - j,
    {
        let c = sorted[j];
        proof {
            assert(sorted@.contains(c));
            let m = choose|m: int| 0 <= m < sc.len() && sc[m] == c;
            assert(is_candidate(data@, sc[m].offset as int));
        }
        if data[c.offset] == 90 {
            saw_zws = true;
            j = j + 1;
            continue;
        }
        if parse_candidate(data, c).is_ok() {
            proof {
                assert forall|d: EmbeddedSwf|
                    #![trigger spec_scan(data@).contains(d), candidate_ok(data@, d)]
                    spec_scan(data@).contains(d) && candidate_ok(data@, d) && d != c implies tried_before(
                    data@,
                    c,
                    d,
                ) by {
                    assert(sorted@.contains(d));
                    let i = choose|i: int| 0 <= i < sorted@.len() && sorted@[i] == d;
                    if i < j {
                        assert(!candidate_ok(data@, sorted@[i]));
                    } else {
                        assert(i != j);
                        assert(tried_before(data@, sorted@[j as int], sorted@[i]));
                    }
                }
                assert(best_candidate(data@, c));
                let chosen = choose|c2: EmbeddedSwf| best_candidate(data@, c2);
                lemma_best_unique(data@, c, chosen);
            }
            return Ok(c);
        }
        j = j + 1;
    }
    proof {
        assert forall|c: EmbeddedSwf| !best_candidate(data@, c) by {
            if best_candidate(data@, c) {
                assert(sorted@.contains(c));
                let i = choose|i: int| 0 <= i < sorted@.len() && sorted@[i] == c;
                assert(!candidate_ok(data@, sorted@[i]));
            }
        }
        if exists|c: EmbeddedSwf| sc.contains(c) && zws_at(data@, c) {
            let c = choose|c: EmbeddedSwf| sc.contains(c) && zws_at(data@, c);
            assert(sorted@.contains(c));
            let i = choose|i: int| 0 <= i < sorted@.len() && sorted@[i] == c;
            assert(zws_at(data@, sorted@[i]));
        }
        if saw_zws {
            let i = choose|i: int| 0 <= i < j && zws_at(data@, #[trigger] sorted@[i]);
            assert(sorted@.contains(sorted@[i]));
        }
    }
    Err(
        ExeError::UnsupportedExe {
            candidates: cands.len(),
            detail: if saw_zws {
                "only LZMA-compressed candidates"
            } else {
                "no candidate parsed as SWF"
            },
        },
    )
}

/// Convenience: locate + parse in one step.
pub fn extract(data: &[u8]) -> (r: Result<SwfSounds, ExeError>)
    ensures
        match r {
            Ok(s) => spec_extract(data@) == Ok::<SwfSoundsView, ExeErrorView>(s@),
            Err(e) => spec_extract(data@) == Err::<SwfSoundsView, ExeErrorView>(e@),
        },
{
    let found = locate(data)?;
    match parse_located(data, found) {
        Ok(s) => Ok(s),
        Err(e) => Err(ExeError::Swf(e)),
    }
}

/// Parses the candidate that [`locate`] accepted.
pub(crate) fn parse_located(data: &[u8], found: EmbeddedSwf) -> (r: Result<SwfSounds, SwfError>)
    requires
        spec_locate(data@) == Ok::<EmbeddedSwf, ExeErrorView>(found),
    ensures
        match r {
            Ok(s) => spec_parse(candidate_bytes(data@, found)) == Ok::<SwfSoundsView, SwfErrorView>(s@),
            Err(e) => spec_parse(candidate_bytes(data@, found)) == Err::<SwfSoundsView, SwfErrorView>(e@),
        },
{
    proof {
        let c = choose|c: EmbeddedSwf| best_candidate(data@, c);
        assert(spec_scan(data@).contains(found));
        assert(data@.len() == data.len());
        lemma_scan_props(data@);
        let m = choose|m: int| 0 <= m < spec_scan(data@).len() && spec_scan(data@)[m] == found;
        assert(is_candidate(data@, spec_scan(data@)[m].offset as int));
    }
    parse_candidate(data, found)
}

/// What went wrong with the executable, in words.
pub open spec fn exe_error_text(e: ExeErrorView) -> Seq<char> {
    match e {
        ExeErrorView::TooSmall => "file too small to be an executable"@,
        ExeErrorView::NotAnExe => "not a Windows executable (no MZ header)"@,
        ExeErrorView::UnsupportedExe { candidates, detail } => "no compatible embedded SWF found ("@
            + decimal(candidates as nat) + " raw candidates, "@ + detail + ")"@,
        ExeErrorView::Swf(inner) => "embedded SWF invalid: "@ + swf_error_text(inner),
    }
}

/// User-facing message for `e`.
pub open spec fn exe_user_message(e: ExeErrorView) -> Seq<char> {
    match e {
        ExeErrorView::Swf(inner) => swf_user_message(inner)
            + ". The original file was not modified. Try the raw .swf if you have it."@,
        _ => exe_error_text(e)
            + ". The original file was not modified. Only Flash projector executables with an embedded SWF are supported. Try the raw .swf if you have it."@,
    }
}

/// User-facing message: every failure says the file was left unmodified
/// and suggests trying the raw `.swf`. An invalid embedded SWF gets the SWF
/// message; anything else also says which executables are supported.
pub fn user_message(e: &ExeError) -> (r: String)
    ensures
        r@ == exe_user_message(e@),
{
    let mut out = String::new();
    match e {
        ExeError::Swf(inner) => {
            push_error_text(&mut out, inner);
            push_str(&mut out, ". The original file was not modified. Try another file or report it.");
            push_str(&mut out, ". The original file was not modified. Try the raw .swf if you have it.");
        },
        ExeError::TooSmall => {
            push_str(&mut out, "file too small to be an executable");
            push_str(&mut out, ". The original file was not modified. Only Flash projector executables with an embedded SWF are supported. Try the raw .swf if you have it.");
        },
        ExeError::NotAnExe => {
            push_str(&mut out, "not a Windows executable (no MZ header)");
            push_str(&mut out, ". The original file was not modified. Only Flash projector executables with an embedded SWF are supported. Try the raw .swf if you have it.");
        },
        ExeError::UnsupportedExe { candidates, detail } => {
            push_str(&mut out, "no compatible embedded SWF found (");
            push_decimal(&mut out, *candidates as u64);
            push_str(&mut out, " raw candidates, ");
            push_str(&mut out, detail);
            push_str(&mut out, ")");
            push_str(&mut out, ". The original file was not modified. Only Flash projector executables with an embedded SWF are supported. Try the raw .swf if you have it.");
        },
    }
    assert(out@ =~= exe_user_message(e@));
    out
}

} // verus!
