//! Note and folder requests: what the sidebar and editor send, checked and
//! turned into the vault-relative paths the file operations act on.
use vstd::prelude::*;
use crate::api::{DeleteResponse, NoteEntry, TrashManifest};
use crate::assets::join_chars;
use crate::error::{message, AppError};
use crate::sorting::{
    distinct_keys, keyed_by, keys_path, lemma_keys_push, lemma_sorted_seconds,
    lemma_with_key_nonempty, names_path, seconds, sort_by_key, stable_sort_by, take_seconds, with_key,
};
use crate::wikilinks::seq_lt;
use crate::paths::{join_spec, trash_dir};
use crate::text::{
    chars_between, ends_with_chars, find_char, has_char, is_whitespace, is_ws, join,
    last_index_of, push_char, push_str, rfind_char, string_of, to_chars, trim, trim_bounds, views,
};

verus! {

// ── Specifications ──

/// `s` without leading `c`s.
pub open spec fn trim_char_start(s: Seq<char>, c: char) -> Seq<char>
    decreases s.len(),
{
    if s.len() > 0 && s[0] == c {
        trim_char_start(s.drop_first(), c)
    } else {
        s
    }
}

/// What a client may put around a path: whitespace or a slash.
pub open spec fn is_rel_pad(c: char) -> bool {
    is_ws(c) || c == '/'
}

/// `s` without its leading whitespace and slashes.
pub open spec fn strip_pad_start(s: Seq<char>) -> Seq<char>
    decreases s.len(),
{
    if s.len() > 0 && is_rel_pad(s[0]) {
        strip_pad_start(s.drop_first())
    } else {
        s
    }
}

/// `s` without its trailing whitespace and slashes.
pub open spec fn strip_pad_end(s: Seq<char>) -> Seq<char>
    decreases s.len(),
{
    if s.len() > 0 && is_rel_pad(s.last()) {
        strip_pad_end(s.drop_last())
    } else {
        s
    }
}

/// A client path with whitespace and slashes stripped from both ends, until
/// neither is left at either end.
pub open spec fn trim_rel_spec(raw: Seq<char>) -> Seq<char> {
    strip_pad_end(strip_pad_start(raw))
}

/// The text of an optional request field, empty when it is missing.
pub open spec fn text_or_empty(o: Option<String>) -> Seq<char> {
    match o {
        Some(s) => s@,
        None => Seq::empty(),
    }
}

pub open spec fn ends_with_md(name: Seq<char>) -> bool {
    name.len() >= 3 && name.skip(name.len() - 3) == ".md"@
}

/// A note's file name: ".md" is added when it is missing.
pub open spec fn with_md(name: Seq<char>) -> Seq<char> {
    if ends_with_md(name) {
        name
    } else {
        name + ".md"@
    }
}

/// `name` inside the folder `parent` ("" is the vault's top level).
pub open spec fn child_rel(parent: Seq<char>, name: Seq<char>) -> Seq<char> {
    if parent.len() == 0 {
        name
    } else {
        parent + seq!['/'] + name
    }
}

/// A name that would step into another folder.
pub open spec fn has_separator(name: Seq<char>) -> bool {
    has_char(name, '/') || has_char(name, '\\')
}

/// The kind a create request asks for: "note" unless it names one.
pub open spec fn create_kind(kind: Seq<char>) -> Seq<char> {
    if trim(kind).len() == 0 {
        "note"@
    } else {
        trim(kind)
    }
}

/// The folder part of a vault-relative path, "" at the top level.
pub open spec fn parent_rel(rel: Seq<char>) -> Seq<char> {
    if has_char(rel, '/') {
        rel.take(last_index_of(rel, '/'))
    } else {
        Seq::empty()
    }
}

/// Where a rename sends `src_rel`: the new name in the same folder, with
/// ".md" added when a file's new name lacks it.
pub open spec fn rename_dest_spec(src_rel: Seq<char>, name: Seq<char>, is_file: bool) -> Seq<
    char,
> {
    child_rel(
        parent_rel(src_rel),
        if is_file {
            with_md(name)
        } else {
            name
        },
    )
}

// ── Lemmas ──

proof fn lemma_strip_pad_start(s: Seq<char>, a: int)
    requires
        0 <= a <= s.len(),
        forall|j: int| 0 <= j < a ==> is_rel_pad(#[trigger] s[j]),
        a < s.len() ==> !is_rel_pad(s[a]),
    ensures
        strip_pad_start(s) == s.skip(a),
    decreases a,
{
    if a == 0 {
        assert(s.skip(0) =~= s);
    } else {
        lemma_strip_pad_start(s.drop_first(), a - 1);
        assert(s.drop_first().skip(a - 1) =~= s.skip(a));
    }
}

proof fn lemma_strip_pad_end(s: Seq<char>, b: int)
    requires
        0 <= b <= s.len(),
        forall|j: int| b <= j < s.len() ==> is_rel_pad(#[trigger] s[j]),
        b > 0 ==> !is_rel_pad(s[b - 1]),
    ensures
        strip_pad_end(s) == s.take(b),
    decreases s.len() - b,
{
    if b == s.len() {
        assert(s.take(b) =~= s);
    } else {
        lemma_strip_pad_end(s.drop_last(), b);
        assert(s.drop_last().take(b) =~= s.take(b));
    }
}

/// Stripping padding keeps exactly the characters between the first and the
/// last one that is not padding.
proof fn lemma_trim_rel(s: Seq<char>, a: int, b: int)
    requires
        0 <= a <= b <= s.len(),
        forall|j: int| 0 <= j < a ==> is_rel_pad(#[trigger] s[j]),
        forall|j: int| b <= j < s.len() ==> is_rel_pad(#[trigger] s[j]),
        a < b ==> !is_rel_pad(s[a]) && !is_rel_pad(s[b - 1]),
        a == b ==> b == s.len(),
    ensures
        trim_rel_spec(s) == s.subrange(a, b),
{
    lemma_strip_pad_start(s, a);
    let t = s.skip(a);
    lemma_strip_pad_end(t, b - a);
    assert(t.take(b - a) =~= s.subrange(a, b));
}

proof fn lemma_no_sep_last_index(parent: Seq<char>, name: Seq<char>)
    requires
        parent.len() > 0,
        !has_char(name, '/'),
    ensures
        last_index_of(parent + seq!['/'] + name, '/') == parent.len(),
        has_char(parent + seq!['/'] + name, '/'),
    decreases name.len(),
{
    let s = parent + seq!['/'] + name;
    assert(s[parent.len() as int] == '/');
    if name.len() == 0 {
        assert(s.last() == '/');
    } else {
        let shorter = name.drop_last();
        assert(!has_char(shorter, '/')) by {
            if has_char(shorter, '/') {
                let i = choose|i: int| 0 <= i < shorter.len() && shorter[i] == '/';
                assert(name[i] == '/');
            }
        }
        lemma_no_sep_last_index(parent, shorter);
        assert(s.drop_last() =~= parent + seq!['/'] + shorter);
        assert(s.last() == name.last());
        assert(name[name.len() - 1] != '/');
    }
}

// ── Executable ──

/// A client path without the whitespace and slashes around it.
pub fn trim_rel(raw: &str) -> (r: String)
    ensures
        r@ == trim_rel_spec(raw@),
{
    let chars = to_chars(raw);
    let mut a: usize = 0;
    while a < chars.len() && (is_whitespace(chars[a]) || chars[a] == '/')
        invariant
            a <= chars.len(),
            forall|j: int| 0 <= j < a ==> is_rel_pad(#[trigger] chars@[j]),
        decreases chars.len() - a,
    {
        a += 1;
    }
    let mut b: usize = chars.len();
    while b > a && (is_whitespace(chars[b - 1]) || chars[b - 1] == '/')
        invariant
            a <= b <= chars.len(),
            forall|j: int| b <= j < chars.len() ==> is_rel_pad(#[trigger] chars@[j]),
        decreases b,
    {
        b -= 1;
    }
    proof {
        if a == b && a < chars.len() {
            assert(!is_rel_pad(chars@[a as int]));
            assert(is_rel_pad(chars@[a as int]));
        }
        lemma_trim_rel(chars@, a as int, b as int);
    }
    string_of(&chars, a, b)
}

/// Whether a file or folder name marks something hidden, like `.obsidian`.
pub fn is_hidden(name: &str) -> (b: bool)
    ensures
        b == (name@.len() > 0 && name@[0] == '.'),
{
    let chars = to_chars(name);
    chars.len() > 0 && chars[0] == '.'
}

/// Whether a file name is a Markdown note.
pub fn is_markdown(name: &str) -> (b: bool)
    ensures
        b == ends_with_md(name@),
{
    let chars = to_chars(name);
    let md = to_chars(".md");
    proof {
        reveal_strlit(".md");
    }
    ends_with_chars(&chars, &md)
}

fn has_separator_chars(v: &Vec<char>) -> (b: bool)
    ensures
        b == has_separator(v@),
{
    let slash = find_char(v, '/', 0);
    let back = find_char(v, '\\', 0);
    slash.is_some() || back.is_some()
}

fn optional_text(o: Option<String>) -> (r: String)
    ensures
        r@ == text_or_empty(o),
{
    match o {
        Some(s) => s,
        None => String::new(),
    }
}

fn trimmed(s: &str) -> (r: Vec<char>)
    ensures
        r@ == trim(s@),
{
    let chars = to_chars(s);
    let (a, b) = trim_bounds(&chars);
    chars_between(&chars, a, b)
}

fn note_name(name: &Vec<char>) -> (r: String)
    ensures
        r@ == with_md(name@),
{
    let md = to_chars(".md");
    proof {
        reveal_strlit(".md");
    }
    let mut out = string_of(name, 0, name.len());
    assert(name@.subrange(0, name@.len() as int) =~= name@);
    if !ends_with_chars(name, &md) {
        push_str(&mut out, ".md");
    }
    out
}

fn child_rel_exec(parent: &str, name: &str) -> (r: String)
    ensures
        r@ == child_rel(parent@, name@),
{
    let p = to_chars(parent);
    let mut out = String::from_str(parent);
    if p.len() > 0 {
        push_char(&mut out, '/');
    }
    push_str(&mut out, name);
    out
}

/// What a create request will make: its kind and its vault-relative path.
#[derive(Debug, Clone)]
pub struct CreatePlan {
    pub kind: String,
    pub rel: String,
}

/// Checks a request to create a note or folder named `name` inside the
/// folder `parent`. A note's name gets ".md" when it lacks it; a name with a
/// separator is refused, so a crafted "../escape" cannot leave its folder.
pub fn plan_create(kind: Option<String>, parent: Option<String>, name: Option<String>) -> (r:
    Result<CreatePlan, AppError>)
    ensures
        ({
            let n = trim(text_or_empty(name));
            let k = create_kind(text_or_empty(kind));
            match r {
                Ok(p) => {
                    &&& n.len() > 0 && !has_separator(n)
                    &&& p.kind@ == k
                    &&& p.rel@ == child_rel(
                        trim_rel_spec(text_or_empty(parent)),
                        if k == "note"@ {
                            with_md(n)
                        } else {
                            n
                        },
                    )
                },
                Err(e) => {
                    &&& e.status == 400
                    &&& n.len() == 0 ==> e.detail@ == "No name provided"@
                    &&& n.len() > 0 ==> has_separator(n) && e.detail@
                        == "Name cannot contain path separators"@
                },
            }
        }),
{
    let kind_text = optional_text(kind);
    let k = trimmed(kind_text.as_str());
    let kind_str = if k.len() == 0 {
        String::from_str("note")
    } else {
        string_of(&k, 0, k.len())
    };
    assert(k@.subrange(0, k@.len() as int) =~= k@);
    let parent_text = optional_text(parent);
    let parent_rel = trim_rel(parent_text.as_str());
    let name_text = optional_text(name);
    let n = trimmed(name_text.as_str());
    if n.len() == 0 {
        return Err(AppError::bad_request(String::from_str("No name provided")));
    }
    if has_separator_chars(&n) {
        return Err(AppError::bad_request(String::from_str("Name cannot contain path separators")));
    }
    let kc = to_chars(kind_str.as_str());
    let note = to_chars("note");
    let final_name = if crate::text::chars_eq(&kc, &note) {
        note_name(&n)
    } else {
        string_of(&n, 0, n.len())
    };
    assert(n@.subrange(0, n@.len() as int) =~= n@);
    let rel = child_rel_exec(parent_rel.as_str(), final_name.as_str());
    Ok(CreatePlan { kind: kind_str, rel })
}

/// Checks a rename request: the path of what moves and its new name, both
/// required, the name without separators. Gives back both, trimmed.
pub fn plan_rename(path: Option<String>, name: Option<String>) -> (r: Result<(String, String), AppError>)
    ensures
        ({
            let src = trim_rel_spec(text_or_empty(path));
            let n = trim(text_or_empty(name));
            match r {
                Ok((s, m)) => {
                    &&& src.len() > 0 && n.len() > 0 && !has_separator(n)
                    &&& s@ == src
                    &&& m@ == n
                },
                Err(e) => {
                    &&& e.status == 400
                    &&& (src.len() == 0 || n.len() == 0) ==> e.detail@
                        == "Both path and name are required"@
                    &&& (src.len() > 0 && n.len() > 0) ==> has_separator(n) && e.detail@
                        == "Name cannot contain path separators"@
                },
            }
        }),
{
    let path_text = optional_text(path);
    let src = trim_rel(path_text.as_str());
    let name_text = optional_text(name);
    let n = trimmed(name_text.as_str());
    let sc = to_chars(src.as_str());
    if sc.len() == 0 || n.len() == 0 {
        return Err(AppError::bad_request(String::from_str("Both path and name are required")));
    }
    if has_separator_chars(&n) {
        return Err(AppError::bad_request(String::from_str("Name cannot contain path separators")));
    }
    let m = string_of(&n, 0, n.len());
    assert(n@.subrange(0, n@.len() as int) =~= n@);
    Ok((src, m))
}

/// Where a rename puts `src_rel`: `name` in the same folder, a file's name
/// getting ".md" when it lacks it.
pub fn rename_dest(src_rel: &str, name: &str, is_file: bool) -> (r: String)
    ensures
        r@ == rename_dest_spec(src_rel@, name@, is_file),
{
    let src = to_chars(src_rel);
    let nc = to_chars(name);
    let new_name = if is_file {
        note_name(&nc)
    } else {
        String::from_str(name)
    };
    let parent = match rfind_char(&src, '/') {
        Some(k) => string_of(&src, 0, k),
        None => String::new(),
    };
    proof {
        if !has_char(src@, '/') {
            assert(parent@ == parent_rel(src@));
        } else {
            assert(src@.subrange(0, last_index_of(src@, '/')) =~= src@.take(
                last_index_of(src@, '/'),
            ));
        }
    }
    child_rel_exec(parent.as_str(), new_name.as_str())
}

/// A rename never moves anything to another folder: when the new name holds
/// no '/', the destination's folder is the source's.
pub proof fn rename_stays_in_folder(src_rel: Seq<char>, name: Seq<char>, is_file: bool)
    requires
        !has_char(name, '/'),
    ensures
        parent_rel(rename_dest_spec(src_rel, name, is_file)) == parent_rel(src_rel),
{
    let n = if is_file {
        with_md(name)
    } else {
        name
    };
    assert(!has_char(n, '/')) by {
        if is_file && !ends_with_md(name) {
            reveal_strlit(".md");
            if has_char(n, '/') {
                let i = choose|i: int| 0 <= i < n.len() && n[i] == '/';
                if i < name.len() {
                    assert(name[i] == '/');
                } else {
                    assert(n[i] == ".md"@[i - name.len()]);
                }
            }
        }
    }
    let p = parent_rel(src_rel);
    if p.len() == 0 {
        assert(rename_dest_spec(src_rel, name, is_file) == n);
    } else {
        lemma_no_sep_last_index(p, n);
        assert((p + seq!['/'] + n).take(p.len() as int) =~= p);
    }
}

/// A new note or folder lands directly in the folder the request names:
/// whatever the name, the created path's folder is the trimmed parent.
pub proof fn created_in_its_parent(parent: Seq<char>, name: Seq<char>, is_note: bool)
    requires
        !has_separator(name),
    ensures
        parent_rel(child_rel(trim_rel_spec(parent), if is_note {
            with_md(name)
        } else {
            name
        })) == trim_rel_spec(parent),
{
    let n = if is_note {
        with_md(name)
    } else {
        name
    };
    assert(!has_char(n, '/')) by {
        if is_note && !ends_with_md(name) {
            reveal_strlit(".md");
            if has_char(n, '/') {
                let i = choose|i: int| 0 <= i < n.len() && n[i] == '/';
                if i < name.len() {
                    assert(name[i] == '/');
                } else {
                    assert(n[i] == ".md"@[i - name.len()]);
                }
            }
        }
    }
    let p = trim_rel_spec(parent);
    if p.len() == 0 {
        assert(child_rel(p, n) == n);
    } else {
        lemma_no_sep_last_index(p, n);
        assert((p + seq!['/'] + n).take(p.len() as int) =~= p);
    }
}

/// Checks a delete request: the path of what goes to the trash.
pub fn plan_delete(path: Option<String>) -> (r: Result<String, AppError>)
    ensures
        ({
            let rel = trim_rel_spec(text_or_empty(path));
            match r {
                Ok(s) => rel.len() > 0 && s@ == rel,
                Err(e) => rel.len() == 0 && e.status == 400 && e.detail@ == "No path provided"@,
            }
        }),
{
    let text = optional_text(path);
    let rel = trim_rel(text.as_str());
    let rc = to_chars(rel.as_str());
    if rc.len() == 0 {
        return Err(AppError::bad_request(String::from_str("No path provided")));
    }
    Ok(rel)
}

/// Checks a restore request: the token a delete handed out.
pub fn plan_restore(token: Option<String>) -> (r: Result<String, AppError>)
    ensures
        ({
            let t = trim(text_or_empty(token));
            match r {
                Ok(s) => t.len() > 0 && s@ == t,
                Err(e) => t.len() == 0 && e.status == 400 && e.detail@ == "No token provided"@,
            }
        }),
{
    let text = optional_text(token);
    let t = trimmed(text.as_str());
    if t.len() == 0 {
        return Err(AppError::bad_request(String::from_str("No token provided")));
    }
    let s = string_of(&t, 0, t.len());
    assert(t@.subrange(0, t@.len() as int) =~= t@);
    Ok(s)
}

/// The answer when a restore token leads nowhere.
pub fn nothing_to_restore(token: &str) -> (e: AppError)
    ensures
        e.status == 404,
        e.detail@ == "Nothing to restore for "@ + token@,
{
    AppError::not_found(message("Nothing to restore for ", token))
}

// ── The folder listing ──

/// The key a folder is listed under: its path relative to the listed base,
/// '/'-separated whatever the platform, and "." for the base itself.
pub fn folder_key(parts: &Vec<String>) -> (r: String)
    ensures
        r@ == if parts@.len() == 0 {
            "."@
        } else {
            join(views(parts@), '/')
        },
{
    if parts.len() == 0 {
        return String::from_str(".");
    }
    let mut chars: Vec<Vec<char>> = Vec::new();
    let mut i: usize = 0;
    while i < parts.len()
        invariant
            i <= parts.len(),
            crate::text::vviews(chars@) == views(parts@).take(i as int),
        decreases parts.len() - i,
    {
        let c = to_chars(parts[i].as_str());
        let ghost prev = chars@;
        assert(c@ == views(parts@)[i as int]);
        chars.push(c);
        assert(crate::text::vviews(chars@) =~= crate::text::vviews(prev).push(c@));
        assert(crate::text::vviews(chars@) =~= views(parts@).take(i + 1));
        i += 1;
    }
    assert(views(parts@).take(parts.len() as int) =~= views(parts@));
    join_chars(&chars, '/')
}

/// Notes within a folder are listed by file name.
pub open spec fn note_key() -> spec_fn(NoteEntry) -> Seq<char> {
    |e: NoteEntry| e.0@
}

fn copy_entry(e: &NoteEntry) -> (r: NoteEntry)
    ensures
        r == *e,
{
    NoteEntry(e.0.clone(), e.1.clone())
}

/// The notes of one folder, sorted by name.
fn folder_notes(entries: &Vec<(String, NoteEntry)>, key: &String) -> (notes: Vec<NoteEntry>)
    ensures
        stable_sort_by(notes@, seconds(with_key(entries@, key@)), note_key()),
{
    let mut group: Vec<(String, NoteEntry)> = Vec::new();
    let mut j: usize = 0;
    while j < entries.len()
        invariant
            j <= entries.len(),
            keyed_by(group@, note_key()),
            seconds(group@) == seconds(with_key(entries@.take(j as int), key@)),
        decreases entries.len() - j,
    {
        assert(entries@.take(j + 1).drop_last() =~= entries@.take(j as int));
        assert(entries@.take(j + 1).last() == entries@[j as int]);
        if entries[j].0 == *key {
            let e = copy_entry(&entries[j].1);
            let ghost prev = group@;
            group.push((e.0.clone(), e));
            assert(seconds(group@) =~= seconds(prev).push(entries@[j as int].1));
            assert(seconds(with_key(entries@.take(j + 1), key@)) =~= seconds(
                with_key(entries@.take(j as int), key@),
            ).push(entries@[j as int].1));
            assert forall|i: int| 0 <= i < group@.len() implies (#[trigger] group@[i]).0@ == (note_key())(
                group@[i].1,
            ) by {
                if i < prev.len() {
                    assert(group@[i] == prev[i]);
                }
            }
        }
        j += 1;
    }
    assert(entries@.take(entries.len() as int) =~= entries@);
    let ghost input = group@;
    let sorted = sort_by_key(group);
    proof {
        lemma_sorted_seconds(sorted@, input, note_key());
    }
    take_seconds(sorted)
}

/// The folder listing: each folder that directly holds notes, keyed by its
/// relative path, the keys in order, each folder's notes sorted by name (the
/// walk makes no promise of order, so the listing is sorted to stay stable).
/// `entries` pairs each note found with its folder's key.
pub fn folder_groups(entries: &Vec<(String, NoteEntry)>) -> (out: Vec<(String, Vec<NoteEntry>)>)
    ensures
        forall|i: int, j: int| 0 <= i < j < out@.len() ==> seq_lt(#[trigger] out@[i].0@, #[trigger] out@[j].0@),
        forall|p: Seq<char>| #[trigger] keys_path(out@, p) <==> keys_path(entries@, p),
        forall|i: int|
            0 <= i < out@.len() ==> stable_sort_by(
                (#[trigger] out@[i]).1@,
                seconds(with_key(entries@, out@[i].0@)),
                note_key(),
            ),
{
    let mut rels: Vec<(String, ())> = Vec::new();
    let mut i: usize = 0;
    assert(entries@.take(0) =~= Seq::<(String, NoteEntry)>::empty());
    while i < entries.len()
        invariant
            i <= entries.len(),
            forall|p: Seq<char>| #[trigger] keys_path(rels@, p) <==> keys_path(entries@.take(i as int), p),
        decreases entries.len() - i,
    {
        let ghost prev = rels@;
        rels.push((entries[i].0.clone(), ()));
        proof {
            assert(entries@.take(i + 1) =~= entries@.take(i as int).push(entries@[i as int]));
            assert forall|p: Seq<char>| #[trigger] keys_path(rels@, p) <==> keys_path(entries@.take(i + 1), p) by {
                lemma_keys_push(prev, (entries@[i as int].0, ()), p);
                lemma_keys_push(entries@.take(i as int), entries@[i as int], p);
            }
        }
        i += 1;
    }
    assert(entries@.take(entries.len() as int) =~= entries@);
    let ghost r = rels@;
    let sorted = sort_by_key(rels);
    proof {
        assert forall|p: Seq<char>| #[trigger] keys_path(sorted@, p) <==> keys_path(r, p) by {
            lemma_with_key_nonempty(sorted@, p);
            lemma_with_key_nonempty(r, p);
            assert(with_key(sorted@, p) == with_key(r, p));
        }
    }
    let keys = distinct_keys(&sorted);
    let mut out: Vec<(String, Vec<NoteEntry>)> = Vec::new();
    let mut t: usize = 0;
    while t < keys.len()
        invariant
            t <= keys.len(),
            out@.len() == t,
            forall|a: int| 0 <= a < t ==> (#[trigger] out@[a]).0@ == keys@[a]@,
            forall|a: int|
                0 <= a < t ==> stable_sort_by(
                    (#[trigger] out@[a]).1@,
                    seconds(with_key(entries@, out@[a].0@)),
                    note_key(),
                ),
        decreases keys.len() - t,
    {
        let notes = folder_notes(entries, &keys[t]);
        let ghost prev = out@;
        out.push((keys[t].clone(), notes));
        assert forall|a: int| 0 <= a < t + 1 implies (#[trigger] out@[a]).0@ == keys@[a]@ by {
            if a < t {
                assert(out@[a] == prev[a]);
            }
        }
        assert forall|a: int|
            0 <= a < t + 1 implies stable_sort_by(
                (#[trigger] out@[a]).1@,
                seconds(with_key(entries@, out@[a].0@)),
                note_key(),
            ) by {
            if a < t {
                assert(out@[a] == prev[a]);
            }
        }
        t += 1;
    }
    proof {
        assert forall|a: int, b: int| 0 <= a < b < out@.len() implies seq_lt(#[trigger] out@[a].0@, #[trigger] out@[b].0@) by {
            assert(out@[a].0@ == keys@[a]@ && out@[b].0@ == keys@[b]@);
            assert(seq_lt(keys@[a]@, keys@[b]@));
        }
        assert forall|p: Seq<char>| #[trigger] keys_path(out@, p) <==> keys_path(entries@, p) by {
            if keys_path(out@, p) {
                let a = choose|a: int| 0 <= a < out@.len() && (#[trigger] out@[a]).0@ == p;
                assert(keys@[a]@ == p);
                assert(names_path(keys@, p));
            }
            if keys_path(entries@, p) {
                assert(names_path(keys@, p));
                let a = choose|a: int| 0 <= a < keys@.len() && #[trigger] keys@[a]@ == p;
                assert(out@[a].0@ == p);
            }
        }
    }
    out
}

// ── Deleting into the trash ──

/// `Path`'s `==`: the two paths have the same components.
pub uninterp spec fn same_path(a: Seq<char>, b: Seq<char>) -> bool;

/// `Path::starts_with`: `base`'s components are the first components of `p`.
pub uninterp spec fn path_within(p: Seq<char>, base: Seq<char>) -> bool;

/// `Path::new(a) == Path::new(b)`: compares the paths component by component,
/// so "a//b" and "a/b" are the same path.
#[verifier::external_body]
fn paths_equal(a: &str, b: &str) -> (r: bool)
    ensures
        r == same_path(a@, b@),
{
    std::path::Path::new(a) == std::path::Path::new(b)
}

/// `Path::new(p).starts_with(base)`: whole components only, so "/v/.trashy"
/// is not within "/v/.trash".
#[verifier::external_body]
fn path_starts_with(p: &str, base: &str) -> (r: bool)
    ensures
        r == path_within(p@, base@),
{
    std::path::Path::new(p).starts_with(base)
}

/// A resolved path is served only when it lies within the vault, compared
/// by whole components, so "/notes2" is not within "/notes". `full` is the
/// resolved path, `vault` the vault's.
pub fn contained(full: &str, vault: &str) -> (r: Result<(), AppError>)
    ensures
        r is Ok <==> path_within(full@, vault@),
        r matches Err(e) ==> e.status == 403 && e.detail@ == "Access denied"@,
{
    if path_starts_with(full, vault) {
        Ok(())
    } else {
        Err(AppError::forbidden(String::from_str("Access denied")))
    }
}

/// The two things a delete request may not remove: the vault itself, and
/// the trash or anything in it (the trash is emptied by hand, not through
/// the app). `full` is the resolved path asked for, `vault` the vault's.
pub fn delete_guard(full: &str, vault: &str) -> (r: Result<(), AppError>)
    ensures
        ({
            let trash = join_spec(vault@, ".trash"@);
            match r {
                Ok(_) => !same_path(full@, vault@) && !same_path(full@, trash) && !path_within(
                    full@,
                    trash,
                ),
                Err(e) => {
                    &&& e.status == 403
                    &&& same_path(full@, vault@) ==> e.detail@ == "Cannot delete the vault itself"@
                    &&& !same_path(full@, vault@) ==> (same_path(full@, trash) || path_within(
                        full@,
                        trash,
                    )) && e.detail@ == "Cannot delete the trash through this endpoint"@
                },
            }
        }),
{
    if paths_equal(full, vault) {
        return Err(AppError::forbidden(String::from_str("Cannot delete the vault itself")));
    }
    let trash = trash_dir(vault);
    if paths_equal(full, trash.as_str()) || path_starts_with(full, trash.as_str()) {
        return Err(
            AppError::forbidden(String::from_str("Cannot delete the trash through this endpoint")),
        );
    }
    Ok(())
}

pub open spec fn is_lower_hex(c: char) -> bool {
    ('0' <= c <= '9') || ('a' <= c <= 'f')
}

/// `uuid::Uuid::new_v4().simple().to_string()`: a random UUID written as 32
/// lower-case hexadecimal digits.
#[verifier::external_body]
fn random_uuid_hex() -> (r: String)
    ensures
        r@.len() == 32,
        forall|i: int| 0 <= i < 32 ==> is_lower_hex(#[trigger] r@[i]),
{
    uuid::Uuid::new_v4().simple().to_string()
}

/// A deletion's token: when it happened, and eight random hex digits so two
/// deletions in one second do not collide.
pub fn deletion_token(stamp: &str, id: &str) -> (r: String)
    ensures
        r@ == stamp@ + seq!['-'] + crate::search::take_chars(id@, 8),
{
    let mut out = String::from_str(stamp);
    push_char(&mut out, '-');
    let cut = crate::scripts::truncate(id, 8);
    push_str(&mut out, cut.as_str());
    out
}

/// A fresh token for a deletion, stamped with the local time.
pub fn new_deletion_token() -> (r: String)
    ensures
        exists|stamp: Seq<char>, id: Seq<char>|
            crate::images::is_compact_stamp(stamp) && id.len() == 32 && (forall|k: int|
                0 <= k < 32 ==> is_lower_hex(#[trigger] id[k])) && #[trigger] (stamp + seq!['-']
                + id.take(8)) == r@,
{
    let stamp = crate::images::local_time("%Y%m%d-%H%M%S");
    let id = random_uuid_hex();
    let r = deletion_token(stamp.as_str(), id.as_str());
    assert(r@ == stamp@ + seq!['-'] + id@.take(8));
    r
}

/// What a deleted entry is: "folder" or "note".
pub fn entry_kind(is_dir: bool) -> (r: String)
    ensures
        r@ == if is_dir {
            "folder"@
        } else {
            "note"@
        },
{
    if is_dir {
        String::from_str("folder")
    } else {
        String::from_str("note")
    }
}

/// What the trash records of a deletion, and what the request is answered
/// with: where the entry was, its name, its kind, when it went and the token
/// that brings it back.
pub fn deletion_record(rel: String, name: String, is_dir: bool, token: String, deleted_at: String) -> (r: (
    TrashManifest,
    DeleteResponse,
))
    ensures
        r.0.path@ == rel@,
        r.0.name@ == name@,
        r.0.kind@ == r.1.kind@,
        r.0.kind@ == (if is_dir {
            "folder"@
        } else {
            "note"@
        }),
        r.0.deleted_at@ == deleted_at@,
        r.1.deleted@ == rel@,
        r.1.token@ == token@,
{
    let kind = entry_kind(is_dir);
    let manifest = TrashManifest {
        path: rel.clone(),
        name,
        kind: kind.clone(),
        deleted_at,
    };
    (manifest, DeleteResponse { deleted: rel, kind, token })
}

/// The deletion record for an entry going to the trash now, stamped with
/// the local time.
pub fn record_deletion(rel: String, name: String, is_dir: bool, token: String) -> (r: (
    TrashManifest,
    DeleteResponse,
))
    ensures
        r.0.path@ == rel@,
        r.0.name@ == name@,
        r.0.kind@ == r.1.kind@,
        r.0.kind@ == (if is_dir {
            "folder"@
        } else {
            "note"@
        }),
        crate::images::is_iso_stamp(r.0.deleted_at@),
        r.1.deleted@ == rel@,
        r.1.token@ == token@,
{
    let deleted_at = crate::images::local_time("%Y-%m-%dT%H:%M:%S");
    deletion_record(rel, name, is_dir, token, deleted_at)
}

/// Keeps a request's optional text only when it is not empty.
pub fn requested(o: Option<String>) -> (r: Option<String>)
    ensures
        match o {
            Some(s) => if s@.len() > 0 {
                r == Some(s)
            } else {
                r is None
            },
            None => r is None,
        },
{
    match o {
        Some(s) => if to_chars(s.as_str()).len() > 0 {
            Some(s)
        } else {
            None
        },
        None => None,
    }
}

/// The query of a folder listing: the folder to list, when it is not the
/// vault itself.
#[derive(Debug, Clone, Default)]
pub struct RootQuery {
    pub root: Option<String>,
}

// ── Trimmed paths ──

proof fn lemma_strip_pad_start_first(s: Seq<char>)
    ensures
        strip_pad_start(s).len() > 0 ==> !is_rel_pad(strip_pad_start(s)[0]),
        strip_pad_start(s).len() <= s.len(),
    decreases s.len(),
{
    if s.len() > 0 && is_rel_pad(s[0]) {
        lemma_strip_pad_start_first(s.drop_first());
    }
}

proof fn lemma_strip_pad_end_prefix(s: Seq<char>)
    ensures
        strip_pad_end(s).len() <= s.len(),
        strip_pad_end(s) == s.take(strip_pad_end(s).len() as int),
        strip_pad_end(s).len() > 0 ==> !is_rel_pad(strip_pad_end(s).last()),
    decreases s.len(),
{
    if s.len() > 0 && is_rel_pad(s.last()) {
        lemma_strip_pad_end_prefix(s.drop_last());
        let r = strip_pad_end(s.drop_last());
        assert(s.drop_last().take(r.len() as int) =~= s.take(r.len() as int));
    } else {
        assert(s.take(s.len() as int) =~= s);
    }
}

/// A trimmed client path neither starts nor ends with a slash or with
/// whitespace, so joining it under a folder never yields an absolute path or
/// a doubled separator.
pub proof fn trimmed_rel_has_no_outer_slash(raw: Seq<char>)
    ensures
        trim_rel_spec(raw).len() > 0 ==> !is_rel_pad(trim_rel_spec(raw)[0]) && !is_rel_pad(
            trim_rel_spec(raw).last(),
        ),
{
    let t = strip_pad_start(raw);
    lemma_strip_pad_start_first(raw);
    lemma_strip_pad_end_prefix(t);
    let r = strip_pad_end(t);
    if r.len() > 0 {
        assert(r[0] == t.take(r.len() as int)[0]);
    }
}

/// Trimming a client path twice changes nothing more.
pub proof fn trim_rel_idempotent(raw: Seq<char>)
    ensures
        trim_rel_spec(trim_rel_spec(raw)) == trim_rel_spec(raw),
{
    let r = trim_rel_spec(raw);
    trimmed_rel_has_no_outer_slash(raw);
    lemma_trim_rel(r, 0, r.len() as int);
    assert(r.subrange(0, r.len() as int) =~= r);
}

} // verus!
