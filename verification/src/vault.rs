//! The vault: which folder is open, what it is called, and the settings kept
//! per vault.
use vstd::prelude::*;
use crate::error::AppError;
use crate::notes::text_or_empty;
use crate::paths::{file_name, file_name_spec};
use crate::api::DirEntry;
use crate::sorting::{
    firsts, keyed_by, names_path, self_keyed, sort_strings, lemma_sorted_seconds, seconds, sort_by_key, stable_sort_by, stable_sort_of,
    take_seconds, with_key,
};
use crate::text::{lowercase, push_char, string_of, to_chars, to_lowercase, trim, trim_bounds};

verus! {

// ── Save-hooks, allowed per vault ──

/// Whether save-hooks may run for `vault`: only when it is on the list.
/// Keyed by vault path and off by default, so opening a vault someone else
/// prepared never runs their scripts because another vault allowed hooks.
pub fn hooks_enabled(allowed: &Vec<String>, vault: &str) -> (b: bool)
    ensures
        b == names_path(allowed@, vault@),
{
    let mut i: usize = 0;
    while i < allowed.len()
        invariant
            i <= allowed.len(),
            forall|j: int| 0 <= j < i ==> allowed@[j]@ != vault@,
        decreases allowed.len() - i,
    {
        if crate::text::chars_eq(&to_chars(allowed[i].as_str()), &to_chars(vault)) {
            assert(allowed@[i as int]@ == vault@);
            return true;
        }
        i += 1;
    }
    false
}

/// `s` without the entries equal to `w`.
pub open spec fn without(s: Seq<String>, w: Seq<char>) -> Seq<String>
    decreases s.len(),
{
    if s.len() == 0 {
        s
    } else if s.last()@ == w {
        without(s.drop_last(), w)
    } else {
        without(s.drop_last(), w).push(s.last())
    }
}

/// The list after allowing or refusing hooks for `vault`: `vault` is dropped
/// and, when allowed, added once; the list is kept sorted.
pub open spec fn hooks_list_spec(out: Seq<String>, allowed: Seq<String>, vault: Seq<char>, enabled: bool, vault_str: String) -> bool {
    stable_sort_of(
        self_keyed(out),
        self_keyed(
            if enabled {
                without(allowed, vault).push(vault_str)
            } else {
                without(allowed, vault)
            },
        ),
    )
}

/// The allow-list after turning hooks on or off for `vault`.
pub fn set_hooks_enabled(allowed: Vec<String>, vault: &str, enabled: bool) -> (out: Vec<String>)
    ensures
        exists|v: String| v@ == vault@ && #[trigger] hooks_list_spec(out@, allowed@, vault@, enabled, v),
{
    let wanted = String::from_str(vault);
    let mut kept: Vec<(String, ())> = Vec::new();
    let mut i: usize = 0;
    while i < allowed.len()
        invariant
            i <= allowed.len(),
            wanted@ == vault@,
            kept@ == self_keyed(without(allowed@.take(i as int), vault@)),
        decreases allowed.len() - i,
    {
        assert(allowed@.take(i + 1).drop_last() =~= allowed@.take(i as int));
        assert(allowed@.take(i + 1).last() == allowed@[i as int]);
        if !crate::text::chars_eq(&to_chars(allowed[i].as_str()), &to_chars(vault)) {
            let ghost prev = kept@;
            kept.push((allowed[i].clone(), ()));
            assert(kept@ =~= self_keyed(without(allowed@.take(i as int), vault@).push(
                allowed@[i as int],
            )));
        }
        i += 1;
    }
    assert(allowed@.take(allowed.len() as int) =~= allowed@);
    let ghost base = without(allowed@, vault@);
    if enabled {
        let ghost w = wanted;
        kept.push((wanted, ()));
        assert(kept@ =~= self_keyed(base.push(w)));
        let kept_strings = firsts(kept);
        let out = sort_strings(kept_strings);
        assert(hooks_list_spec(out@, allowed@, vault@, enabled, w));
        out
    } else {
        let kept_strings = firsts(kept);
        let out = sort_strings(kept_strings);
        assert(hooks_list_spec(out@, allowed@, vault@, enabled, wanted));
        out
    }
}

proof fn lemma_with_key_self(s: Seq<String>, k: Seq<char>)
    ensures
        with_key(self_keyed(s), k).len() > 0 <==> names_path(s, k),
    decreases s.len(),
{
    if s.len() > 0 {
        lemma_with_key_self(s.drop_last(), k);
        assert(self_keyed(s).drop_last() =~= self_keyed(s.drop_last()));
        assert(self_keyed(s).last() == (s.last(), ()));
        if names_path(s, k) {
            let i = choose|i: int| 0 <= i < s.len() && #[trigger] s[i]@ == k;
            if i < s.len() - 1 {
                assert(s.drop_last()[i] == s[i]);
            }
        }
        if names_path(s.drop_last(), k) {
            let i = choose|i: int| 0 <= i < s.drop_last().len() && #[trigger] s.drop_last()[i]@ == k;
            assert(s[i] == s.drop_last()[i]);
        }
        if s.last()@ == k {
            assert(s[s.len() - 1]@ == k);
        }
    }
}

proof fn lemma_without(s: Seq<String>, w: Seq<char>, k: Seq<char>)
    ensures
        names_path(without(s, w), k) <==> names_path(s, k) && k != w,
    decreases s.len(),
{
    if s.len() > 0 {
        lemma_without(s.drop_last(), w, k);
        let init = s.drop_last();
        let wi = without(init, w);
        if names_path(s, k) {
            let i = choose|i: int| 0 <= i < s.len() && #[trigger] s[i]@ == k;
            if i < s.len() - 1 {
                assert(init[i] == s[i]);
            }
        }
        if names_path(init, k) {
            let i = choose|i: int| 0 <= i < init.len() && #[trigger] init[i]@ == k;
            assert(s[i] == init[i]);
        }
        if s.last()@ != w {
            let t = wi.push(s.last());
            if names_path(t, k) {
                let i = choose|i: int| 0 <= i < t.len() && #[trigger] t[i]@ == k;
                if i < wi.len() {
                    assert(wi[i] == t[i]);
                } else {
                    assert(s[s.len() - 1]@ == k);
                }
            }
            if names_path(wi, k) {
                let i = choose|i: int| 0 <= i < wi.len() && #[trigger] wi[i]@ == k;
                assert(t[i] == wi[i]);
            }
            if s.last()@ == k {
                assert(t[wi.len() as int]@ == k);
            }
        } else {
            if s.last()@ == k {
            }
        }
    }
}

/// Turning hooks on or off for a vault is what a later check reads back, and
/// leaves every other vault as it was.
pub proof fn hooks_setting_read_back(
    out: Seq<String>,
    allowed: Seq<String>,
    vault: Seq<char>,
    enabled: bool,
    vault_str: String,
    other: Seq<char>,
)
    requires
        vault_str@ == vault,
        hooks_list_spec(out, allowed, vault, enabled, vault_str),
    ensures
        names_path(out, vault) == enabled,
        other != vault ==> names_path(out, other) == names_path(allowed, other),
{
    let full = if enabled {
        without(allowed, vault).push(vault_str)
    } else {
        without(allowed, vault)
    };
    assert(with_key(self_keyed(out), vault) == with_key(self_keyed(full), vault));
    assert(with_key(self_keyed(out), other) == with_key(self_keyed(full), other));
    lemma_with_key_self(out, vault);
    lemma_with_key_self(full, vault);
    lemma_with_key_self(out, other);
    lemma_with_key_self(full, other);
    lemma_without(allowed, vault, vault);
    lemma_without(allowed, vault, other);
    if enabled {
        let wv = without(allowed, vault);
        assert(full[wv.len() as int]@ == vault);
        if names_path(full, other) {
            let i = choose|i: int| 0 <= i < full.len() && #[trigger] full[i]@ == other;
            if i < wv.len() {
                assert(wv[i] == full[i]);
            }
        }
        if names_path(wv, other) {
            let i = choose|i: int| 0 <= i < wv.len() && #[trigger] wv[i]@ == other;
            assert(full[i] == wv[i]);
        }
        if names_path(full, vault) {
        }
    }
}

// ── The open vault ──

/// What the vault picker shows for a folder: its own name, or the whole
/// path for a filesystem root.
pub fn vault_display_name(path: &str) -> (r: String)
    ensures
        r@ == match file_name_spec(path@) {
            Some(n) => n,
            None => path@,
        },
{
    match file_name(path) {
        Some(n) => n,
        None => String::from_str(path),
    }
}

/// Checks a request to open another vault: the folder it names, trimmed.
pub fn plan_set_vault(path: Option<String>) -> (r: Result<String, AppError>)
    ensures
        ({
            let raw = trim(text_or_empty(path));
            match r {
                Ok(s) => raw.len() > 0 && s@ == raw,
                Err(e) => raw.len() == 0 && e.status == 400 && e.detail@ == "No folder provided"@,
            }
        }),
{
    let text = match path {
        Some(s) => s,
        None => String::new(),
    };
    let chars = to_chars(text.as_str());
    let (a, b) = trim_bounds(&chars);
    if a == b {
        return Err(AppError::bad_request(String::from_str("No folder provided")));
    }
    Ok(string_of(&chars, a, b))
}

/// The drive roots the folder picker offers on Windows, "A:\" to "Z:\";
/// none elsewhere. The caller keeps those that exist.
pub fn windows_drives(on_windows: bool) -> (out: Vec<String>)
    ensures
        !on_windows ==> out@.len() == 0,
        on_windows ==> out@.len() == 26 && forall|i: int|
            0 <= i < 26 ==> (#[trigger] out@[i])@ == seq![((65 + i) as u32) as char, ':', '\\'],
{
    let mut out: Vec<String> = Vec::new();
    if !on_windows {
        return out;
    }
    let mut d: u8 = 65;
    while d <= 90
        invariant
            65 <= d <= 91,
            out@.len() == d - 65,
            forall|i: int|
                0 <= i < out@.len() ==> (#[trigger] out@[i])@ == seq![((65 + i) as u32) as char, ':', '\\'],
        decreases 91 - d,
    {
        let mut s = String::new();
        push_char(&mut s, d as char);
        push_char(&mut s, ':');
        push_char(&mut s, '\\');
        assert(s@ =~= seq![((65 + (d - 65)) as u32) as char, ':', '\\']);
        out.push(s);
        d += 1;
    }
    out
}

// ── Browsing for a folder ──

/// Sub-folders are listed by their lower-cased names.
pub open spec fn dir_key() -> spec_fn(DirEntry) -> Seq<char> {
    |e: DirEntry| lowercase(e.name@)
}

/// The entries whose names do not start with '.'.
pub open spec fn visible(s: Seq<DirEntry>) -> Seq<DirEntry>
    decreases s.len(),
{
    if s.len() == 0 {
        s
    } else if s.last().name@.len() > 0 && s.last().name@[0] == '.' {
        visible(s.drop_last())
    } else {
        visible(s.drop_last()).push(s.last())
    }
}

/// The sub-folders the picker lists: hidden ones left out, the rest in
/// order of their lower-cased names (equal names keep the order they came).
pub fn browse_entries(entries: Vec<DirEntry>) -> (out: Vec<DirEntry>)
    ensures
        stable_sort_by(out@, visible(entries@), dir_key()),
{
    let ghost orig = entries@;
    let mut rest = entries;
    let mut pairs: Vec<(String, DirEntry)> = Vec::new();
    while rest.len() > 0
        invariant
            rest.len() <= orig.len(),
            rest@ == orig.skip(orig.len() - rest.len()),
            keyed_by(pairs@, dir_key()),
            seconds(pairs@) == visible(orig.take(orig.len() - rest.len())),
        decreases rest.len(),
    {
        let ghost n = orig.len() - rest.len();
        let e = rest.remove(0);
        assert(rest@ =~= orig.skip(orig.len() - rest.len()));
        assert(orig[n] == e);
        assert(orig.take(n + 1).drop_last() =~= orig.take(n));
        assert(orig.take(n + 1).last() == e);
        let name = to_chars(e.name.as_str());
        if !(name.len() > 0 && name[0] == '.') {
            let key = to_lowercase(e.name.as_str());
            let ghost ge = e;
            let ghost prev = pairs@;
            pairs.push((key, e));
            assert(pairs@ == prev.push((key, ge)));
            assert(seconds(pairs@) =~= seconds(prev).push(ge));
            assert forall|i: int| 0 <= i < pairs@.len() implies (#[trigger] pairs@[i]).0@ == (dir_key())(
                pairs@[i].1,
            ) by {
                if i < prev.len() {
                    assert(pairs@[i] == prev[i]);
                }
            }
        }
    }
    assert(orig.take(orig.len() as int) =~= orig);
    let ghost input = pairs@;
    let sorted = sort_by_key(pairs);
    proof {
        lemma_sorted_seconds(sorted@, input, dir_key());
    }
    take_seconds(sorted)
}

} // verus!
