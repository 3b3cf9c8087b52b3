//! What the browser client decides: the URLs it asks for, the message it
//! shows for a failed request, and the note it opens first.
use vstd::prelude::*;
use crate::api::NoteEntry;
use crate::assets::{encode_segment, encode_segment_spec, opt_view};
use crate::render::{render, render_spec, RenderContext};
use crate::sorting::{self_keyed, sort_strings, stable_sort_of};
use crate::text::{decimal, push_char, push_decimal, push_str, to_chars, views};

verus! {

// ── Requests ──

/// A URL with an optional, encoded query parameter.
pub open spec fn with_param(base: Seq<char>, key: Seq<char>, value: Option<Seq<char>>) -> Seq<char> {
    match value {
        Some(v) => base + seq!['?'] + key + seq!['='] + encode_segment_spec(v),
        None => base,
    }
}

fn url_with_param(base: &str, key: &str, value: Option<&str>) -> (r: String)
    ensures
        r@ == with_param(base@, key@, opt_view(value)),
{
    let mut out = String::from_str(base);
    if let Some(v) = value {
        push_char(&mut out, '?');
        push_str(&mut out, key);
        push_char(&mut out, '=');
        let e = encode_segment(v);
        push_str(&mut out, e.as_str());
    }
    out
}

/// The folder picker's listing of `path`, or of the vault.
pub fn browse_url(path: Option<&str>) -> (r: String)
    ensures
        r@ == with_param("/api/browse"@, "path"@, opt_view(path)),
{
    url_with_param("/api/browse", "path", path)
}

/// The folder listing of `root`, or of the vault.
pub fn folders_url(root: Option<&str>) -> (r: String)
    ensures
        r@ == with_param("/api/folders"@, "root"@, opt_view(root)),
{
    url_with_param("/api/folders", "root", root)
}

/// Where a note is read and saved. The whole path is one encoded segment,
/// so names holding '#', '?', '%' or spaces address the right file.
pub fn file_url(filepath: &str) -> (r: String)
    ensures
        r@ == "/api/file/"@ + encode_segment_spec(filepath@),
{
    let mut out = String::from_str("/api/file/");
    let e = encode_segment(filepath);
    push_str(&mut out, e.as_str());
    out
}

/// A search for `query`.
pub fn search_url(query: &str) -> (r: String)
    ensures
        r@ == "/api/search?q="@ + encode_segment_spec(query@),
{
    let mut out = String::from_str("/api/search?q=");
    let e = encode_segment(query);
    push_str(&mut out, e.as_str());
    out
}

/// What a failed request shows: the server's own `detail` when its body
/// had one, else the status. `None` for a success (a 2xx status).
pub fn failure_message(status: u16, detail: Option<String>) -> (r: Option<String>)
    ensures
        200 <= status < 300 ==> r is None,
        !(200 <= status < 300) ==> r is Some && r->0@ == match detail {
            Some(d) => d@,
            None => "Request failed: "@ + decimal(status as nat),
        },
{
    if 200 <= status && status < 300 {
        return None;
    }
    match detail {
        Some(d) => Some(d),
        None => {
            let mut out = String::from_str("Request failed: ");
            push_decimal(&mut out, status as u64);
            Some(out)
        },
    }
}

// ── The first note ──

/// A note's path in the vault, from its folder's key and its file name.
pub open spec fn note_path_spec(folder: Seq<char>, name: Seq<char>) -> Seq<char> {
    if folder == "."@ {
        name
    } else {
        folder + seq!['/'] + name
    }
}

/// The paths of the notes of one folder, in order.
pub open spec fn folder_paths(folder: Seq<char>, notes: Seq<NoteEntry>) -> Seq<Seq<char>> {
    notes.map_values(|e: NoteEntry| note_path_spec(folder, e.0@))
}

/// The paths of every listed note, folder by folder.
pub open spec fn all_paths(folders: Seq<(String, Vec<NoteEntry>)>) -> Seq<Seq<char>>
    decreases folders.len(),
{
    if folders.len() == 0 {
        Seq::empty()
    } else {
        all_paths(folders.drop_last()) + folder_paths(folders.last().0@, folders.last().1@)
    }
}

/// Every note of a folder listing as a vault path ("." is the top level),
/// sorted: the flat list wiki links resolve against.
pub fn note_list(folders: &Vec<(String, Vec<NoteEntry>)>) -> (out: Vec<String>)
    ensures
        exists|flat: Seq<String>|
            views(flat) == all_paths(folders@) && #[trigger] stable_sort_of(
                self_keyed(out@),
                self_keyed(flat),
            ),
{
    let dot = to_chars(".");
    let mut flat: Vec<String> = Vec::new();
    let mut i: usize = 0;
    while i < folders.len()
        invariant
            i <= folders.len(),
            dot@ == "."@,
            views(flat@) == all_paths(folders@.take(i as int)),
        decreases folders.len() - i,
    {
        let folder = &folders[i].0;
        let notes = &folders[i].1;
        let top = crate::text::chars_eq(&to_chars(folder.as_str()), &dot);
        let ghost start = flat@;
        let mut j: usize = 0;
        while j < notes.len()
            invariant
                i < folders.len(),
                folder == &folders@[i as int].0,
                notes == &folders@[i as int].1,
                dot@ == "."@,
                top == (folder@ == "."@),
                j <= notes.len(),
                flat@.len() == start.len() + j,
                flat@.take(start.len() as int) == start,
                views(flat@.skip(start.len() as int)) == folder_paths(folder@, notes@.take(j as int)),
            decreases notes.len() - j,
        {
            let p = if top {
                notes[j].0.clone()
            } else {
                let mut s = folder.clone();
                push_char(&mut s, '/');
                push_str(&mut s, notes[j].0.as_str());
                s
            };
            assert(p@ == note_path_spec(folder@, notes@[j as int].0@));
            let ghost prev = flat@;
            flat.push(p);
            assert(flat@.take(start.len() as int) =~= start);
            assert(notes@.take(j + 1) =~= notes@.take(j as int).push(notes@[j as int]));
            assert(flat@.skip(start.len() as int) =~= prev.skip(start.len() as int).push(p));
            assert(views(flat@.skip(start.len() as int)) =~= views(prev.skip(start.len() as int)).push(
                p@,
            ));
            assert(folder_paths(folder@, notes@.take(j + 1)) =~= folder_paths(folder@, notes@.take(j as int)).push(
                note_path_spec(folder@, notes@[j as int].0@),
            ));
            j += 1;
        }
        proof {
            assert(notes@.take(notes@.len() as int) =~= notes@);
            assert(flat@ =~= start + flat@.skip(start.len() as int));
            assert(views(flat@) =~= views(start) + views(flat@.skip(start.len() as int)));
            assert(folders@.take(i + 1).drop_last() =~= folders@.take(i as int));
            assert(folders@.take(i + 1).last() == folders@[i as int]);
        }
        i += 1;
    }
    assert(folders@.take(folders.len() as int) =~= folders@);
    let ghost f = flat@;
    let out = sort_strings(flat);
    out
}

/// What the client shows once it has loaded: the vault's name, the open
/// note, its HTML, and the notes wiki links resolve against.
#[derive(Debug, Clone, Default)]
pub struct Loaded {
    pub html: String,
    pub vault: String,
    pub note: String,
    pub notes: Vec<String>,
}

/// What a vault without notes shows.
pub fn empty_vault(vault: String) -> (r: Loaded)
    ensures
        r.vault@ == vault@,
        r.note@ == "no notes yet"@,
        r.html@.len() == 0,
        r.notes@.len() == 0,
{
    Loaded { html: String::new(), vault, note: String::from_str("no notes yet"), notes: Vec::new() }
}

/// A note opened in the client: its text rendered as the preview shows it,
/// with links resolved against `notes`.
pub fn loaded_note(vault: String, note: String, notes: Vec<String>, content: &str) -> (r: Loaded)
    ensures
        r.vault@ == vault@,
        r.note@ == note@,
        r.notes@ == notes@,
        r.html@ == render_spec(content@, Some(note@), views(notes@)),
{
    let html = {
        let context = RenderContext { note_path: Some(note.as_str()), notes: notes.as_slice() };
        render(content, &context)
    };
    Loaded { html, vault, note, notes }
}

} // verus!
