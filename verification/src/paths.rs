//! Names derived from file paths: where the portable library lives
//! beside the app, what a dropped looper is called, and under which name
//! its source is kept.
//!
//! Path syntax itself is `std::path`'s: the three queries used here go
//! through it and are named, not re-derived.
use vstd::prelude::*;
use vstd::string::StrSliceExecFns;
use vstd::string::StringExecFns;
use crate::library::{safe_name, sanitize_name};
use crate::text::{decimal, push_char, push_decimal, push_str, str_eq};

verus! {

/// `Path::parent` of `p`, as text.
pub uninterp spec fn path_parent(p: Seq<char>) -> Option<Seq<char>>;

/// `Path::extension` of `p`, as text.
pub uninterp spec fn path_extension(p: Seq<char>) -> Option<Seq<char>>;

/// `Path::file_stem` of `p`, as text.
pub uninterp spec fn path_file_stem(p: Seq<char>) -> Option<Seq<char>>;

/// `std::path::Path::parent`: the path without its final component, or
/// `None` for a root or the empty path. Beyond naming the result, the
/// contract states what that documentation implies: a parent is shorter
/// than the path.
#[verifier::external_body]
fn parent_of(p: &str) -> (r: Option<String>)
    ensures
        match path_parent(p@) {
            None => r is None,
            Some(q) => r matches Some(s) && s@ == q,
        },
        r matches Some(s) ==> s@.len() < p@.len(),
{
    match std::path::Path::new(p).parent() {
        Some(q) => Some(q.to_string_lossy().into_owned()),
        None => None,
    }
}

/// `std::path::Path::extension`: what follows the last `.` of the file
/// name, if any. The contract only names the result.
#[verifier::external_body]
fn extension_of(p: &str) -> (r: Option<String>)
    ensures
        match path_extension(p@) {
            None => r is None,
            Some(e) => r matches Some(s) && s@ == e,
        },
{
    match std::path::Path::new(p).extension() {
        Some(e) => Some(e.to_string_lossy().into_owned()),
        None => None,
    }
}

/// `std::path::Path::file_stem`: the file name without its extension.
/// The contract only names the result.
#[verifier::external_body]
fn file_stem_of(p: &str) -> (r: Option<String>)
    ensures
        match path_file_stem(p@) {
            None => r is None,
            Some(e) => r matches Some(s) && s@ == e,
        },
{
    match std::path::Path::new(p).file_stem() {
        Some(e) => Some(e.to_string_lossy().into_owned()),
        None => None,
    }
}

/// `str::to_lowercase` of `s`: every character lowered by Unicode's rules.
pub uninterp spec fn lowercase(s: Seq<char>) -> Seq<char>;

/// `str::to_lowercase`. Beyond naming the result, the contract states what
/// its documentation implies for ASCII text: ASCII letters are lowered
/// and nothing else changes.
#[verifier::external_body]
fn lowercase_of(s: &str) -> (r: String)
    ensures
        r@ == lowercase(s@),
        (forall|i: int| 0 <= i < s@.len() ==> (#[trigger] s@[i] as u32) < 128) ==> r@
            == ascii_lower(s@),
{
    s.to_lowercase()
}

/// The nearest of `p` and its ancestors whose extension is `app`.
pub open spec fn app_bundle(p: Seq<char>) -> Option<Seq<char>>
    decreases p.len(),
{
    if path_extension(p) == Some("app"@) {
        Some(p)
    } else {
        match path_parent(p) {
            Some(q) => if q.len() < p.len() {
                app_bundle(q)
            } else {
                None
            },
            None => None,
        }
    }
}

/// The folder the portable library sits in: beside the `.app` bundle the
/// executable lives in, else beside the executable.
pub open spec fn spec_portable_root(executable: Seq<char>) -> Result<Seq<char>, Seq<char>> {
    match app_bundle(executable) {
        Some(b) => match path_parent(b) {
            Some(q) => Ok(q),
            None => Err("app bundle has no parent directory"@),
        },
        None => match path_parent(executable) {
            Some(q) => Ok(q),
            None => Err("executable has no parent directory"@),
        },
    }
}

/// The folder the portable library sits in, for the executable at
/// `executable`: the parent of the enclosing macOS `.app` bundle if there
/// is one, else the executable's own folder.
pub fn portable_root_for_executable(executable: &str) -> (r: Result<String, String>)
    ensures
        match spec_portable_root(executable@) {
            Ok(q) => r matches Ok(s) && s@ == q,
            Err(m) => r matches Err(s) && s@ == m,
        },
{
    let mut cur = String::from_str(executable);
    loop
        invariant
            app_bundle(executable@) == app_bundle(cur@),
        ensures
            app_bundle(executable@) is None,
        decreases cur@.len(),
    {
        let is_app = match extension_of(cur.as_str()) {
            Some(e) => str_eq(e.as_str(), "app"),
            None => false,
        };
        assert(is_app == (path_extension(cur@) == Some("app"@)));
        if is_app {
            return match parent_of(cur.as_str()) {
                Some(q) => Ok(q),
                None => Err("app bundle has no parent directory".to_owned()),
            };
        }
        match parent_of(cur.as_str()) {
            Some(q) => {
                cur = q;
            },
            None => {
                break ;
            },
        }
    }
    match parent_of(executable) {
        Some(q) => Ok(q),
        None => Err("executable has no parent directory".to_owned()),
    }
}

/// Display name of a looper file: its stem, or `looper`.
pub fn looper_name(path: &str) -> (r: String)
    ensures
        r@ == match path_file_stem(path@) {
            Some(s) => s,
            None => "looper"@,
        },
{
    match file_stem_of(path) {
        Some(s) => s,
        None => "looper".to_owned(),
    }
}

/// Folder name given to tracks of catalog rows that predate looper names:
/// custom imports go to `Custom Loops`, others after their source file.
pub fn legacy_looper_name(source_type: &str, source_path: &str) -> (r: String)
    ensures
        r@ == if source_type@ == "custom"@ {
            "Custom Loops"@
        } else {
            match path_file_stem(source_path@) {
                Some(s) => safe_name(s),
                None => "Imported Looper"@,
            }
        },
{
    if str_eq(source_type, "custom") {
        return "Custom Loops".to_owned();
    }
    match file_stem_of(source_path) {
        Some(s) => sanitize_name(s.as_str()),
        None => "Imported Looper".to_owned(),
    }
}

/// ASCII letters lowered; every other character kept.
pub open spec fn ascii_lower(s: Seq<char>) -> Seq<char> {
    s.map_values(|c: char| if 'A' <= c && c <= 'Z' { ((c as u32) + 32) as char } else { c })
}

fn to_ascii_lower(s: &str) -> (r: String)
    ensures
        r@ == ascii_lower(s@),
{
    let n = s.unicode_len();
    let mut out = String::new();
    let mut i: usize = 0;
    while i < n
        invariant
            n == s@.len(),
            i <= n,
            out@ == ascii_lower(s@.take(i as int)),
        decreases n - i,
    {
        let c = s.get_char(i);
        let l = if 'A' <= c && c <= 'Z' {
            ((c as u32 + 32) as u8) as char
        } else {
            c
        };
        push_char(&mut out, l);
        assert(ascii_lower(s@.take(i + 1)) =~= ascii_lower(s@.take(i as int)).push(l));
        i = i + 1;
    }
    assert(s@.take(n as int) =~= s@);
    out
}

/// Extension under which a dropped looper source is kept: its own,
/// ASCII-lowered (empty when it has none).
pub open spec fn source_extension(path: Seq<char>) -> Seq<char> {
    match path_extension(path) {
        Some(e) => ascii_lower(e),
        None => Seq::empty(),
    }
}

/// `stem.ext` for the first try, `stem (n).ext` for the `n`-th.
pub open spec fn numbered_name(stem: Seq<char>, n: u32, ext: Seq<char>) -> Seq<char> {
    let suffix = if n <= 1 {
        Seq::empty()
    } else {
        " ("@ + decimal(n as nat) + ")"@
    };
    stem + suffix + "."@ + ext
}

/// The `n`-th file name tried (from 1) for `stem` with extension `ext`
/// where earlier names are taken: `stem.ext`, then `stem (2).ext`, ...
pub fn numbered_file_name(stem: &str, n: u32, ext: &str) -> (r: String)
    ensures
        r@ == numbered_name(stem@, n, ext@),
{
    let mut name = String::from_str(stem);
    if n > 1 {
        push_str(&mut name, " (");
        push_decimal(&mut name, n as u64);
        push_str(&mut name, ")");
    }
    push_str(&mut name, ".");
    push_str(&mut name, ext);
    assert(name@ =~= numbered_name(stem@, n, ext@));
    name
}

/// The `n`-th name tried for keeping a dropped source (from 1): the safe
/// stem, numbered from the second try on, and the lowered extension.
pub open spec fn spec_source_copy_name(path: Seq<char>, n: u32) -> Result<Seq<char>, Seq<char>> {
    let ext = source_extension(path);
    if ext != "swf"@ && ext != "exe"@ {
        Err("only .swf and .exe files can be copied to loopersFlash"@)
    } else {
        let stem = safe_name(
            match path_file_stem(path) {
                Some(s) => s,
                None => "looper"@,
            },
        );
        Ok(numbered_name(stem, n, ext))
    }
}

/// Name of the `n`-th candidate file (from 1) for keeping the dropped
/// source `path` beside the app; only `.swf` and `.exe` are kept.
pub fn source_copy_name(path: &str, n: u32) -> (r: Result<String, String>)
    ensures
        match spec_source_copy_name(path@, n) {
            Ok(q) => r matches Ok(s) && s@ == q,
            Err(m) => r matches Err(s) && s@ == m,
        },
{
    let ext = match extension_of(path) {
        Some(e) => to_ascii_lower(e.as_str()),
        None => String::new(),
    };
    if !str_eq(ext.as_str(), "swf") && !str_eq(ext.as_str(), "exe") {
        return Err("only .swf and .exe files can be copied to loopersFlash".to_owned());
    }
    let raw_stem = match file_stem_of(path) {
        Some(s) => s,
        None => "looper".to_owned(),
    };
    let stem = sanitize_name(raw_stem.as_str());
    Ok(numbered_file_name(stem.as_str(), n, ext.as_str()))
}

/// Extension and codec of an imported custom loop: its own, lowered, or
/// `wav` when it has none.
pub open spec fn custom_extension(path: Seq<char>) -> Seq<char> {
    match path_extension(path) {
        Some(e) => lowercase(e),
        None => "wav"@,
    }
}

/// The codec an imported custom loop is catalogued under.
pub fn custom_codec(path: &str) -> (r: String)
    ensures
        r@ == custom_extension(path@),
{
    match extension_of(path) {
        Some(e) => lowercase_of(e.as_str()),
        None => "wav".to_owned(),
    }
}

/// The `n`-th name tried (from 1) for a custom loop copied into the
/// library: the safe stem (`loop` when the path has none), numbered from
/// the second try on, with the lowered extension.
pub open spec fn spec_custom_copy_name(path: Seq<char>, n: u32) -> Seq<char> {
    let stem = match path_file_stem(path) {
        Some(s) => s,
        None => "loop"@,
    };
    numbered_name(safe_name(stem), n, custom_extension(path))
}

/// Name of the `n`-th candidate file (from 1) for a custom loop at `path`.
pub fn custom_copy_name(path: &str, n: u32) -> (r: String)
    ensures
        r@ == spec_custom_copy_name(path@, n),
{
    let raw_stem = match file_stem_of(path) {
        Some(s) => s,
        None => "loop".to_owned(),
    };
    let stem = sanitize_name(raw_stem.as_str());
    let ext = custom_codec(path);
    numbered_file_name(stem.as_str(), n, ext.as_str())
}

/// Names tried for keeping a dropped source before giving up.
pub const MAX_SOURCE_COPIES: u32 = 10000;

/// What to do with the `n`-th candidate name for a dropped source.
#[derive(Debug, Clone, Copy, PartialEq, Eq)]
pub enum SourceCopyStep {
    /// A file with the same bytes is there already: keep using it.
    UseExisting,
    /// A different file holds this name: try the given next number.
    TryNext(u32),
    /// The name is free: write the copy under it.
    WriteNew,
    /// Every name was taken by a different file.
    TooMany,
}

/// The decision for the `n`-th candidate name, given whether a file holds
/// that name (`taken`) and whether it holds exactly the dropped bytes
/// (`same_bytes`): reuse an identical copy, write into a free name, else
/// move on to the next number until the names run out.
pub open spec fn spec_source_copy_step(n: u32, taken: bool, same_bytes: bool) -> SourceCopyStep {
    if !taken {
        SourceCopyStep::WriteNew
    } else if same_bytes {
        SourceCopyStep::UseExisting
    } else if n + 1 < MAX_SOURCE_COPIES {
        SourceCopyStep::TryNext((n + 1) as u32)
    } else {
        SourceCopyStep::TooMany
    }
}

/// Decides what to do with the `n`-th candidate name for a dropped source.
pub fn source_copy_step(n: u32, taken: bool, same_bytes: bool) -> (r: SourceCopyStep)
    requires
        1 <= n < MAX_SOURCE_COPIES,
    ensures
        r == spec_source_copy_step(n, taken, same_bytes),
{
    if !taken {
        SourceCopyStep::WriteNew
    } else if same_bytes {
        SourceCopyStep::UseExisting
    } else if n + 1 < MAX_SOURCE_COPIES {
        SourceCopyStep::TryNext(n + 1)
    } else {
        SourceCopyStep::TooMany
    }
}

} // verus!
