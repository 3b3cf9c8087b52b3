//! User-authored Python scripts run against the vault: which files count as
//! scripts, how their runs are reported, and which notes a run changed.
//!
//! Each run gets the vault path as its argument and in `POSSESS_VAULT`, and
//! the note that triggered it in `POSSESS_NOTE` (save-hooks only). There is
//! no sandbox: they run as the user.
use vstd::prelude::*;
use vstd::utf8::*;
use vstd::string::StringSliceAdditionalSpecFns;
use crate::api::ScriptInfo;
use crate::error::{message, AppError};
use crate::notes::{text_or_empty, trim_rel, trim_rel_spec};
use crate::paths::{extension, extension_spec, file_name, file_name_spec};
use crate::search::take_chars;
use crate::sorting::{
    distinct_keys, keys_path, lemma_keys_push, lemma_with_key_nonempty, names_path, sort_by_key,
    strictly_increasing, with_key,
};
use crate::text::{
    byte_slice, push_decimal, push_signed, push_str, signed_decimal, decimal, string_of, to_chars,
    trim, trim_bounds,
};

verus! {

/// Seconds a script run from the panel may take.
pub const SCRIPT_TIMEOUT: u64 = 30;

/// Seconds a save-hook may take.
pub const HOOK_TIMEOUT: u64 = 10;

/// How much of a run's output is kept, in bytes.
pub const OUTPUT_LIMIT: usize = 20000;

// ── Which files are scripts ──

/// A runnable script's file name: a ".py" file, unless a leading underscore
/// marks it a helper module that scripts import.
pub open spec fn is_script_name_spec(name: Seq<char>) -> bool {
    extension_spec(name) == Some("py"@) && !(name.len() > 0 && name[0] == '_')
}

pub fn is_script_name(name: &str) -> (b: bool)
    ensures
        b == is_script_name_spec(name@),
{
    let chars = to_chars(name);
    let py = to_chars("py");
    let ext_ok = match extension(name) {
        Some(e) => crate::text::chars_eq(&to_chars(e.as_str()), &py),
        None => false,
    };
    ext_ok && !(chars.len() > 0 && chars[0] == '_')
}

/// The listing the panel shows: scripts first, then hooks under "hooks/".
pub open spec fn listing_spec(manual: Seq<String>, hooks: Seq<String>) -> Seq<(Seq<char>, Seq<char>)> {
    manual.map_values(|n: String| (n@, "manual"@)) + hooks.map_values(
        |n: String| ("hooks/"@ + n@, "hook"@),
    )
}

pub open spec fn info_view(i: ScriptInfo) -> (Seq<char>, Seq<char>) {
    (i.name@, i.kind@)
}

/// The script listing from the file names found in scripts/ and in
/// scripts/hooks/, each already sorted.
pub fn script_listing(manual: &Vec<String>, hooks: &Vec<String>) -> (out: Vec<ScriptInfo>)
    ensures
        out@.map_values(|i: ScriptInfo| info_view(i)) == listing_spec(manual@, hooks@),
{
    let mut out: Vec<ScriptInfo> = Vec::new();
    let mut i: usize = 0;
    while i < manual.len()
        invariant
            i <= manual.len(),
            out@.map_values(|x: ScriptInfo| info_view(x)) == manual@.take(i as int).map_values(
                |n: String| (n@, "manual"@),
            ),
        decreases manual.len() - i,
    {
        out.push(ScriptInfo { name: manual[i].clone(), kind: String::from_str("manual") });
        assert(manual@.take(i + 1 as int).map_values(|n: String| (n@, "manual"@)) =~= manual@.take(
            i as int,
        ).map_values(|n: String| (n@, "manual"@)).push((manual@[i as int]@, "manual"@)));
        assert(out@.map_values(|x: ScriptInfo| info_view(x)) =~= manual@.take(i as int).map_values(
            |n: String| (n@, "manual"@),
        ).push((manual@[i as int]@, "manual"@)));
        i += 1;
    }
    assert(manual@.take(manual.len() as int) =~= manual@);
    let ghost first = manual@.map_values(|n: String| (n@, "manual"@));
    let mut j: usize = 0;
    assert(hooks@.take(0).map_values(|n: String| ("hooks/"@ + n@, "hook"@)) =~= Seq::empty());
    assert(first + Seq::empty() =~= first);
    while j < hooks.len()
        invariant
            j <= hooks.len(),
            first == manual@.map_values(|n: String| (n@, "manual"@)),
            out@.map_values(|x: ScriptInfo| info_view(x)) == first + hooks@.take(j as int).map_values(
                |n: String| ("hooks/"@ + n@, "hook"@),
            ),
        decreases hooks.len() - j,
    {
        let mut name = String::from_str("hooks/");
        push_str(&mut name, hooks[j].as_str());
        let ghost prev = out@.map_values(|x: ScriptInfo| info_view(x));
        let info = ScriptInfo { name, kind: String::from_str("hook") };
        assert(info_view(info) == ("hooks/"@ + hooks@[j as int]@, "hook"@));
        out.push(info);
        assert(out@.map_values(|x: ScriptInfo| info_view(x)) =~= prev.push(("hooks/"@ + hooks@[j as int]@, "hook"@)));
        assert(hooks@.take(j + 1 as int).map_values(|n: String| ("hooks/"@ + n@, "hook"@)) =~= hooks@.take(
            j as int,
        ).map_values(|n: String| ("hooks/"@ + n@, "hook"@)).push(("hooks/"@ + hooks@[j as int]@, "hook"@)));
        assert(out@.map_values(|x: ScriptInfo| info_view(x)) =~= first + hooks@.take(j + 1 as int).map_values(
            |n: String| ("hooks/"@ + n@, "hook"@),
        ));
        j += 1;
    }
    assert(hooks@.take(hooks.len() as int) =~= hooks@);
    out
}

/// Checks a run request: the script's name, relative to scripts/.
pub fn plan_run_script(name: Option<String>) -> (r: Result<String, AppError>)
    ensures
        ({
            let n = trim_rel_spec(text_or_empty(name));
            match r {
                Ok(s) => n.len() > 0 && s@ == n,
                Err(e) => n.len() == 0 && e.status == 400 && e.detail@ == "No script named"@,
            }
        }),
{
    let text = match name {
        Some(s) => s,
        None => String::new(),
    };
    let n = trim_rel(text.as_str());
    if to_chars(n.as_str()).len() == 0 {
        return Err(AppError::bad_request(String::from_str("No script named")));
    }
    Ok(n)
}

/// A resolved script path names a ".py" file that exists; otherwise the run
/// is answered with "No such script".
pub fn check_script(full: &str, is_file: bool, name: &str) -> (r: Result<(), AppError>)
    ensures
        ({
            let ext = match file_name_spec(full@) {
                Some(n) => extension_spec(n),
                None => None,
            };
            match r {
                Ok(_) => ext == Some("py"@) && is_file,
                Err(e) => !(ext == Some("py"@) && is_file) && e.status == 404 && e.detail@
                    == "No such script: "@ + name@,
            }
        }),
{
    let py = to_chars("py");
    let ext_ok = match file_name(full) {
        Some(n) => match extension(n.as_str()) {
            Some(e) => crate::text::chars_eq(&to_chars(e.as_str()), &py),
            None => false,
        },
        None => false,
    };
    if !ext_ok || !is_file {
        return Err(AppError::not_found(message("No such script: ", name)));
    }
    Ok(())
}

// ── Reporting a run ──

/// The first byte offset at or after `i` that starts a character.
pub open spec fn boundary_from(bytes: Seq<u8>, i: int) -> int
    decreases bytes.len() - i,
{
    if i >= bytes.len() {
        bytes.len() as int
    } else if is_char_boundary(bytes, i) {
        i
    } else {
        boundary_from(bytes, i + 1)
    }
}

/// The last `limit` bytes of a text, moved forward to a character boundary.
pub open spec fn tail_spec(bytes: Seq<u8>, limit: nat) -> Seq<u8> {
    if bytes.len() <= limit {
        bytes
    } else {
        bytes.skip(boundary_from(bytes, bytes.len() - limit))
    }
}

/// The end of a script's output: its last `limit` bytes, starting on a
/// character boundary.
pub fn tail(text: &str, limit: usize) -> (r: String)
    ensures
        encode_utf8(r@) == tail_spec(text.spec_bytes(), limit as nat),
{
    let len = text.as_bytes().len();
    proof {
        encode_utf8_valid_utf8(text@);
    }
    if len <= limit {
        return String::from_str(text);
    }
    let mut start: usize = len - limit;
    while start < len && !text.is_char_boundary(start)
        invariant
            len == text.spec_bytes().len(),
            len - limit <= start <= len,
            boundary_from(text.spec_bytes(), start as int) == boundary_from(
                text.spec_bytes(),
                len - limit,
            ),
        decreases len - start,
    {
        start += 1;
    }
    proof {
        is_char_boundary_start_end_of_seq(text.spec_bytes());
    }
    let piece = byte_slice(text, start, len);
    assert(piece.spec_bytes() =~= text.spec_bytes().skip(start as int));
    String::from_str(piece)
}

proof fn lemma_boundary_from(bytes: Seq<u8>, i: int)
    requires
        0 <= i,
    ensures
        i <= boundary_from(bytes, i) || i > bytes.len(),
        boundary_from(bytes, i) <= bytes.len(),
    decreases bytes.len() - i,
{
    if i < bytes.len() && !is_char_boundary(bytes, i) {
        lemma_boundary_from(bytes, i + 1);
    }
}

/// What is kept of a run's output never exceeds the limit, and is the end
/// of the output.
pub proof fn tail_fits(bytes: Seq<u8>, limit: nat)
    ensures
        tail_spec(bytes, limit).len() <= limit,
        bytes.skip(bytes.len() - tail_spec(bytes, limit).len()) == tail_spec(bytes, limit),
{
    if bytes.len() > limit {
        lemma_boundary_from(bytes, bytes.len() - limit);
        let b = boundary_from(bytes, bytes.len() - limit);
        assert(bytes.skip(bytes.len() - bytes.skip(b).len()) =~= bytes.skip(b));
    } else {
        assert(bytes.skip(0) =~= bytes);
    }
}

/// The first `limit` characters of a text.
pub fn truncate(text: &str, limit: usize) -> (r: String)
    ensures
        r@ == take_chars(text@, limit as nat),
{
    let chars = to_chars(text);
    if chars.len() <= limit {
        return String::from_str(text);
    }
    let r = string_of(&chars, 0, limit);
    assert(chars@.subrange(0, limit as int) =~= chars@.take(limit as int));
    r
}

/// What the server log says after a save-hook ran.
#[derive(Debug, Clone, PartialEq, Eq)]
pub enum HookLog {
    /// The hook exited with a failure: its name, code and error output.
    Failed(String),
    /// The hook succeeded and printed something.
    Said(String),
    /// The hook succeeded quietly.
    Quiet,
}

pub open spec fn hook_log_spec(name: Seq<char>, code: int, stdout: Seq<char>, stderr: Seq<char>) -> Option<
    (bool, Seq<char>),
> {
    if code != 0 {
        Some(
            (
                true,
                "[PossessApp] hook "@ + name + " failed ("@ + signed_decimal(code) + "): "@
                    + take_chars(trim(stderr), 400),
            ),
        )
    } else if trim(stdout).len() > 0 {
        Some((false, "[PossessApp] hook "@ + name + ": "@ + take_chars(trim(stdout), 400)))
    } else {
        None
    }
}

pub open spec fn hook_log_view(l: HookLog) -> Option<(bool, Seq<char>)> {
    match l {
        HookLog::Failed(s) => Some((true, s@)),
        HookLog::Said(s) => Some((false, s@)),
        HookLog::Quiet => None,
    }
}

fn trimmed_string(s: &str) -> (r: String)
    ensures
        r@ == trim(s@),
{
    let chars = to_chars(s);
    let (a, b) = trim_bounds(&chars);
    string_of(&chars, a, b)
}

/// The log line for a finished save-hook: a failure reports its exit code
/// and error output, a success what it printed; both cut to 400 characters.
/// A broken hook never fails the save that ran it; this line is all it gets.
pub fn hook_log(name: &str, code: i32, stdout: &str, stderr: &str) -> (r: HookLog)
    ensures
        hook_log_view(r) == hook_log_spec(name@, code as int, stdout@, stderr@),
{
    if code != 0 {
        let err = trimmed_string(stderr);
        let mut line = String::from_str("[PossessApp] hook ");
        push_str(&mut line, name);
        push_str(&mut line, " failed (");
        push_signed(&mut line, code as i64);
        push_str(&mut line, "): ");
        let cut = truncate(err.as_str(), 400);
        push_str(&mut line, cut.as_str());
        return HookLog::Failed(line);
    }
    let out = trimmed_string(stdout);
    if to_chars(out.as_str()).len() == 0 {
        return HookLog::Quiet;
    }
    let mut line = String::from_str("[PossessApp] hook ");
    push_str(&mut line, name);
    push_str(&mut line, ": ");
    let cut = truncate(out.as_str(), 400);
    push_str(&mut line, cut.as_str());
    HookLog::Said(line)
}

/// What a run that ran out of time reports as its error output.
pub fn timeout_message(seconds: u64) -> (r: String)
    ensures
        r@ == "Timed out after "@ + decimal(seconds as nat) + "s — script killed."@,
{
    let mut out = String::from_str("Timed out after ");
    push_decimal(&mut out, seconds);
    push_str(&mut out, "s — script killed.");
    out
}

// ── What a run changed ──

/// The value a snapshot records for `path`: the first entry for it.
pub open spec fn lookup(snapshot: Seq<(String, u64)>, path: Seq<char>) -> Option<u64>
    decreases snapshot.len(),
{
    if snapshot.len() == 0 {
        None
    } else if snapshot[0].0@ == path {
        Some(snapshot[0].1)
    } else {
        lookup(snapshot.drop_first(), path)
    }
}

/// A note was created, deleted or rewritten between two snapshots.
pub open spec fn changed_between(before: Seq<(String, u64)>, after: Seq<(String, u64)>, path: Seq<char>) -> bool {
    lookup(before, path) != lookup(after, path)
}

fn lookup_exec(snapshot: &Vec<(String, u64)>, path: &String) -> (r: Option<u64>)
    ensures
        r == lookup(snapshot@, path@),
{
    let mut i: usize = 0;
    assert(snapshot@.skip(0) =~= snapshot@);
    while i < snapshot.len()
        invariant
            i <= snapshot.len(),
            lookup(snapshot@.skip(i as int), path@) == lookup(snapshot@, path@),
        decreases snapshot.len() - i,
    {
        assert(snapshot@.skip(i as int)[0] == snapshot@[i as int]);
        if snapshot[i].0 == *path {
            return Some(snapshot[i].1);
        }
        assert(snapshot@.skip(i as int).drop_first() =~= snapshot@.skip(i + 1));
        i += 1;
    }
    None
}

/// Appends the keys of `src` whose values differ between the snapshots.
fn collect_changed(
    src: &Vec<(String, u64)>,
    before: &Vec<(String, u64)>,
    after: &Vec<(String, u64)>,
    cands: &mut Vec<(String, ())>,
)
    ensures
        forall|p: Seq<char>|
            #[trigger] keys_path(final(cands)@, p) <==> keys_path(old(cands)@, p) || (keys_path(
                src@,
                p,
            ) && changed_between(before@, after@, p)),
{
    let ghost c0 = cands@;
    let mut i: usize = 0;
    assert(src@.take(0) =~= Seq::<(String, u64)>::empty());
    while i < src.len()
        invariant
            i <= src.len(),
            forall|p: Seq<char>|
                #[trigger] keys_path(cands@, p) <==> keys_path(c0, p) || (keys_path(
                    src@.take(i as int),
                    p,
                ) && changed_between(before@, after@, p)),
        decreases src.len() - i,
    {
        let k = &src[i].0;
        let ghost prev = cands@;
        assert(src@.take(i + 1) =~= src@.take(i as int).push(src@[i as int]));
        let changed = lookup_exec(before, k) != lookup_exec(after, k);
        if changed {
            cands.push((k.clone(), ()));
        }
        proof {
            assert forall|p: Seq<char>|
                #[trigger] keys_path(cands@, p) <==> keys_path(c0, p) || (keys_path(
                    src@.take(i + 1),
                    p,
                ) && changed_between(before@, after@, p)) by {
                lemma_keys_push(src@.take(i as int), src@[i as int], p);
                assert(keys_path(prev, p) <==> keys_path(c0, p) || (keys_path(
                    src@.take(i as int),
                    p,
                ) && changed_between(before@, after@, p)));
                if changed {
                    lemma_keys_push(prev, (*k, ()), p);
                }
            }
        }
        i += 1;
    }
    assert(src@.take(src.len() as int) =~= src@);
}

/// The notes that differ between two snapshots of (path, modification
/// time), sorted, each named once.
pub fn changed_since(before: &Vec<(String, u64)>, after: &Vec<(String, u64)>) -> (out: Vec<String>)
    ensures
        strictly_increasing(out@),
        forall|p: Seq<char>|
            #[trigger] names_path(out@, p) <==> (changed_between(before@, after@, p) && (keys_path(
                before@,
                p,
            ) || keys_path(after@, p))),
{
    let mut cands: Vec<(String, ())> = Vec::new();
    collect_changed(before, before, after, &mut cands);
    collect_changed(after, before, after, &mut cands);
    let ghost c = cands@;
    let sorted = sort_by_key(cands);
    proof {
        assert forall|p: Seq<char>| #[trigger] keys_path(sorted@, p) <==> keys_path(c, p) by {
            lemma_with_key_nonempty(sorted@, p);
            lemma_with_key_nonempty(c, p);
            assert(with_key(sorted@, p) == with_key(c, p));
        }
        assert forall|p: Seq<char>| !keys_path(Seq::<(String, ())>::empty(), p) by {}
    }
    distinct_keys(&sorted)
}

// ── Choosing the interpreter ──

/// The interpreter names to look for on PATH, in order of preference.
pub open spec fn interpreter_candidates_spec(windows: bool) -> Seq<Seq<char>> {
    if windows {
        seq!["python.exe"@, "python3.exe"@]
    } else {
        seq!["python3"@, "python"@]
    }
}

/// The interpreter names to look for on PATH, in order of preference.
pub fn interpreter_candidates(windows: bool) -> (r: Vec<String>)
    ensures
        crate::text::views(r@) == interpreter_candidates_spec(windows),
{
    let mut r: Vec<String> = Vec::new();
    if windows {
        r.push(String::from_str("python.exe"));
        r.push(String::from_str("python3.exe"));
    } else {
        r.push(String::from_str("python3"));
        r.push(String::from_str("python"));
    }
    assert(crate::text::views(r@) =~= interpreter_candidates_spec(windows));
    r
}

/// Index of the first candidate found on PATH.
pub open spec fn first_found(on_path: Seq<bool>, i: int) -> Option<int>
    decreases on_path.len() - i,
{
    if i < 0 || i >= on_path.len() {
        None
    } else if on_path[i] {
        Some(i)
    } else {
        first_found(on_path, i + 1)
    }
}

/// The text of an optional string.
pub open spec fn opt_text(o: Option<String>) -> Option<Seq<char>> {
    match o {
        Some(s) => Some(s@),
        None => None,
    }
}

/// The interpreter chosen: `explicit` unless it is blank, else the first
/// candidate found on PATH, else the first candidate.
pub open spec fn picked_interpreter(
    explicit: Option<Seq<char>>,
    candidates: Seq<Seq<char>>,
    on_path: Seq<bool>,
) -> Seq<char> {
    if explicit is Some && trim(explicit->0).len() > 0 {
        explicit->0
    } else {
        match first_found(on_path, 0) {
            Some(i) => candidates[i],
            None => candidates[0],
        }
    }
}

/// The interpreter to run scripts with: `explicit` (POSSESS_PYTHON) when it
/// is set to something other than blanks, else the first candidate found on
/// PATH (`on_path[i]` says whether candidate `i` is), else the first
/// candidate.
pub fn pick_interpreter(explicit: Option<String>, candidates: &Vec<String>, on_path: &Vec<bool>) -> (r: String)
    requires
        candidates.len() >= 1,
        on_path.len() == candidates.len(),
    ensures
        r@ == picked_interpreter(
            opt_text(explicit),
            crate::text::views(candidates@),
            on_path@,
        ),
{
    let ghost ex = opt_text(explicit);
    if let Some(e) = explicit {
        let chars = to_chars(e.as_str());
        let (a, b) = trim_bounds(&chars);
        if a < b {
            return e;
        }
        assert(trim(e@).len() == 0);
    }
    let mut i: usize = 0;
    while i < on_path.len()
        invariant
            i <= on_path.len(),
            on_path.len() == candidates.len(),
            first_found(on_path@, 0) == first_found(on_path@, i as int),
            !(ex is Some && trim(ex->0).len() > 0),
            ex == opt_text(explicit),
        decreases on_path.len() - i,
    {
        if on_path[i] {
            let c = to_chars(candidates[i].as_str());
            assert(c@.subrange(0, c@.len() as int) =~= c@);
            assert(crate::text::views(candidates@)[i as int] == candidates@[i as int]@);
            return string_of(&c, 0, c.len());
        }
        i += 1;
    }
    let c = to_chars(candidates[0].as_str());
    assert(c@.subrange(0, c@.len() as int) =~= c@);
    assert(crate::text::views(candidates@)[0] == candidates@[0]@);
    string_of(&c, 0, c.len())
}

} // verus!
