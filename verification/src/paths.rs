//! Paths as the server handles them: strings of '/'-separated components.
//!
//! Joining, naming and splitting follow what `std::path` does with a Unix
//! path, stated over the characters of the path.
use vstd::prelude::*;
use crate::text::{last_index_of, push_char, push_str, rfind_char, split_chars, split_on, string_of, to_chars, vviews};

verus! {

// ── Specifications ──

/// `base.join(part)`: an absolute `part` replaces `base`; otherwise the two
/// are joined with one '/' unless `base` is empty or already ends in one.
pub open spec fn join_spec(base: Seq<char>, part: Seq<char>) -> Seq<char> {
    if part.len() > 0 && part[0] == '/' {
        part
    } else if base.len() > 0 && base.last() != '/' {
        base + seq!['/'] + part
    } else {
        base + part
    }
}

/// The last piece that names something: empty pieces (doubled or trailing
/// slashes) and "." pieces name nothing.
pub open spec fn last_named(parts: Seq<Seq<char>>) -> Option<Seq<char>>
    decreases parts.len(),
{
    if parts.len() == 0 {
        None
    } else if parts.last().len() == 0 || parts.last() == seq!['.'] {
        last_named(parts.drop_last())
    } else {
        Some(parts.last())
    }
}

/// `Path::file_name`: the final component, unless it is ".." or there is none.
pub open spec fn file_name_spec(p: Seq<char>) -> Option<Seq<char>> {
    match last_named(split_on(p, '/')) {
        Some(n) => if n == seq!['.', '.'] {
            None
        } else {
            Some(n)
        },
        None => None,
    }
}

/// `file_stem` of a file name: everything before its last '.', unless that
/// dot is the first character (".bashrc") or there is none.
pub open spec fn stem_spec(name: Seq<char>) -> Seq<char> {
    let k = last_index_of(name, '.');
    if k <= 0 {
        name
    } else {
        name.take(k)
    }
}

/// `extension` of a file name: what follows its last '.', with the same
/// exceptions as the stem.
pub open spec fn extension_spec(name: Seq<char>) -> Option<Seq<char>> {
    let k = last_index_of(name, '.');
    if k <= 0 {
        None
    } else {
        Some(name.skip(k + 1))
    }
}

/// A separator in a path a client sends: either slash.
pub open spec fn is_sep(c: char) -> bool {
    c == '/' || c == '\\'
}

/// The pieces of `s` between separators of either kind.
pub open spec fn split_seps(s: Seq<char>) -> Seq<Seq<char>>
    decreases s.len(),
{
    if s.len() == 0 {
        seq![Seq::empty()]
    } else {
        let pieces = split_seps(s.drop_last());
        if is_sep(s.last()) {
            pieces.push(Seq::empty())
        } else {
            pieces.update(pieces.len() - 1, pieces.last().push(s.last()))
        }
    }
}

/// One move through the folder tree: up to the parent (`None`), or into the
/// named child.
pub open spec fn steps_spec(parts: Seq<Seq<char>>) -> Seq<Option<Seq<char>>>
    decreases parts.len(),
{
    if parts.len() == 0 {
        Seq::empty()
    } else {
        let rest = steps_spec(parts.drop_last());
        let p = parts.last();
        if p.len() == 0 || p == seq!['.'] {
            rest
        } else if p == seq!['.', '.'] {
            rest.push(None)
        } else {
            rest.push(Some(p))
        }
    }
}

/// `s` without its leading separators.
pub open spec fn trim_seps_start(s: Seq<char>) -> Seq<char>
    decreases s.len(),
{
    if s.len() > 0 && is_sep(s[0]) {
        trim_seps_start(s.drop_first())
    } else {
        s
    }
}

/// A leading "~" (alone, or before a separator) stands for the home folder
/// when one is known.
pub open spec fn expand_user_spec(raw: Seq<char>, home: Option<Seq<char>>) -> Seq<char> {
    if raw.len() > 0 && raw[0] == '~' && (raw.len() == 1 || is_sep(raw[1])) && home is Some {
        join_spec(home->0, trim_seps_start(raw.drop_first()))
    } else {
        raw
    }
}

// ── Lemmas ──

proof fn lemma_last_named_take(parts: Seq<Seq<char>>, i: int)
    requires
        0 < i <= parts.len(),
        parts[i - 1].len() == 0 || parts[i - 1] == seq!['.'],
    ensures
        last_named(parts.take(i)) == last_named(parts.take(i - 1)),
{
    assert(parts.take(i).drop_last() =~= parts.take(i - 1));
}

/// No piece of a split holds a separator.
pub proof fn lemma_split_seps_pieces(s: Seq<char>)
    ensures
        split_seps(s).len() >= 1,
        forall|i: int, j: int|
            0 <= i < split_seps(s).len() && 0 <= j < split_seps(s)[i].len() ==> !is_sep(
                #[trigger] split_seps(s)[i][j],
            ),
    decreases s.len(),
{
    if s.len() > 0 {
        lemma_split_seps_pieces(s.drop_last());
        let pieces = split_seps(s.drop_last());
        if !is_sep(s.last()) {
            let last = pieces.last().push(s.last());
            assert forall|i: int, j: int|
                0 <= i < split_seps(s).len() && 0 <= j < split_seps(s)[i].len() implies !is_sep(
                #[trigger] split_seps(s)[i][j]) by {
                if i == pieces.len() - 1 && j == last.len() - 1 {
                    assert(split_seps(s)[i][j] == s.last());
                } else if i == pieces.len() - 1 {
                    assert(split_seps(s)[i][j] == pieces[i][j]);
                } else {
                    assert(split_seps(s)[i] == pieces[i]);
                }
            }
        } else {
            assert forall|i: int, j: int|
                0 <= i < split_seps(s).len() && 0 <= j < split_seps(s)[i].len() implies !is_sep(
                #[trigger] split_seps(s)[i][j]) by {
                if i < pieces.len() {
                    assert(split_seps(s)[i] == pieces[i]);
                }
            }
        }
    }
}

/// Every step names a real child: never empty, ".", "..", or with a separator.
pub proof fn lemma_steps_named(parts: Seq<Seq<char>>)
    requires
        forall|i: int, j: int|
            0 <= i < parts.len() && 0 <= j < parts[i].len() ==> !is_sep(#[trigger] parts[i][j]),
    ensures
        forall|k: int|
            0 <= k < steps_spec(parts).len() && (#[trigger] steps_spec(parts)[k]) is Some ==> {
                let n = steps_spec(parts)[k]->0;
                &&& n.len() > 0
                &&& n != seq!['.']
                &&& n != seq!['.', '.']
                &&& forall|j: int| 0 <= j < n.len() ==> !is_sep(#[trigger] n[j])
            },
    decreases parts.len(),
{
    if parts.len() > 0 {
        let init = parts.drop_last();
        assert forall|i: int, j: int|
            0 <= i < init.len() && 0 <= j < init[i].len() implies !is_sep(#[trigger] init[i][j]) by {
            assert(init[i] == parts[i]);
        }
        lemma_steps_named(init);
        let last = parts.last();
        assert forall|j: int| 0 <= j < last.len() implies !is_sep(#[trigger] last[j]) by {
            assert(parts[parts.len() - 1][j] == last[j]);
        }
    }
}

// ── Executable ──

/// `base.join(part)`.
pub fn join(base: &str, part: &str) -> (r: String)
    ensures
        r@ == join_spec(base@, part@),
{
    let pc = to_chars(part);
    if pc.len() > 0 && pc[0] == '/' {
        return String::from_str(part);
    }
    let bc = to_chars(base);
    let mut out = String::from_str(base);
    if bc.len() > 0 && bc[bc.len() - 1] != '/' {
        push_char(&mut out, '/');
    }
    push_str(&mut out, part);
    out
}

fn is_dot(v: &Vec<char>) -> (b: bool)
    ensures
        b == (v@ == seq!['.']),
{
    let b = v.len() == 1 && v[0] == '.';
    if v.len() == 1 && !b {
        assert(v@[0] != seq!['.'][0]);
    }
    if b {
        assert(v@ =~= seq!['.']);
    }
    b
}

fn is_dot_dot(v: &Vec<char>) -> (b: bool)
    ensures
        b == (v@ == seq!['.', '.']),
{
    let b = v.len() == 2 && v[0] == '.' && v[1] == '.';
    if v.len() == 2 && !b {
        assert(v@[0] != seq!['.', '.'][0] || v@[1] != seq!['.', '.'][1]);
    }
    if b {
        assert(v@ =~= seq!['.', '.']);
    }
    b
}

/// `Path::file_name`.
pub fn file_name(p: &str) -> (r: Option<String>)
    ensures
        opt_chars(r) == file_name_spec(p@),
{
    let chars = to_chars(p);
    let parts = split_chars(&chars, '/');
    let ghost all = vviews(parts@);
    let mut i: usize = parts.len();
    assert(all.take(i as int) =~= all);
    while i > 0 && (parts[i - 1].len() == 0 || is_dot(&parts[i - 1]))
        invariant
            i <= parts.len(),
            all == vviews(parts@),
            all == split_on(p@, '/'),
            last_named(all.take(i as int)) == last_named(all),
        decreases i,
    {
        proof {
            lemma_last_named_take(all, i as int);
        }
        i -= 1;
    }
    if i == 0 {
        assert(all.take(0) =~= Seq::<Seq<char>>::empty());
        return None;
    }
    assert(all.take(i as int).last() == all[i - 1]);
    if is_dot_dot(&parts[i - 1]) {
        return None;
    }
    let n = parts[i - 1].len();
    let name = string_of(&parts[i - 1], 0, n);
    assert(parts@[i - 1]@.subrange(0, n as int) =~= parts@[i - 1]@);
    Some(name)
}

/// The characters of an optional string.
pub open spec fn opt_chars(o: Option<String>) -> Option<Seq<char>> {
    match o {
        Some(s) => Some(s@),
        None => None,
    }
}

/// `file_stem` of a file name.
pub fn stem(name: &str) -> (r: String)
    ensures
        r@ == stem_spec(name@),
{
    let chars = to_chars(name);
    match rfind_char(&chars, '.') {
        Some(k) => {
            if k == 0 {
                String::from_str(name)
            } else {
                string_of(&chars, 0, k)
            }
        },
        None => String::from_str(name),
    }
}

/// `extension` of a file name.
pub fn extension(name: &str) -> (r: Option<String>)
    ensures
        opt_chars(r) == extension_spec(name@),
{
    let chars = to_chars(name);
    match rfind_char(&chars, '.') {
        Some(k) => {
            if k == 0 {
                None
            } else {
                let e = string_of(&chars, k + 1, chars.len());
                assert(chars@.subrange(k + 1, chars@.len() as int) =~= chars@.skip(k + 1));
                Some(e)
            }
        },
        None => None,
    }
}

/// Deletes move here instead of being unlinked, so removing a folder can be
/// undone. Dot-prefixed, so the note walk already skips it.
pub fn trash_dir(vault: &str) -> (r: String)
    ensures
        r@ == join_spec(vault@, ".trash"@),
{
    join(vault, ".trash")
}

/// Where a vault keeps its user scripts.
pub fn scripts_dir(vault: &str) -> (r: String)
    ensures
        r@ == join_spec(vault@, "scripts"@),
{
    join(vault, "scripts")
}

/// The settings file inside the application's root folder.
pub fn config_file(root: &str) -> (r: String)
    ensures
        r@ == join_spec(root@, "possess-config.json"@),
{
    join(root, "possess-config.json")
}

/// The vault used when none was chosen, inside the application's root folder.
pub fn default_vault(root: &str) -> (r: String)
    ensures
        r@ == join_spec(root@, "notes"@),
{
    join(root, "notes")
}

/// A path as the pieces between separators of either kind.
fn split_seps_chars(v: &Vec<char>) -> (out: Vec<Vec<char>>)
    ensures
        vviews(out@) == split_seps(v@),
{
    let mut done: Vec<Vec<char>> = Vec::new();
    let mut cur: Vec<char> = Vec::new();
    let mut i: usize = 0;
    while i < v.len()
        invariant
            i <= v.len(),
            vviews(done@).push(cur@) == split_seps(v@.take(i as int)),
        decreases v.len() - i,
    {
        let ghost before = vviews(done@).push(cur@);
        assert(v@.take(i + 1 as int).drop_last() =~= v@.take(i as int));
        if v[i] == '/' || v[i] == '\\' {
            done.push(cur);
            cur = Vec::new();
            assert(vviews(done@).push(cur@) =~= before.push(Seq::empty()));
        } else {
            cur.push(v[i]);
            assert(vviews(done@).push(cur@) =~= before.update(
                before.len() - 1,
                before.last().push(v@[i as int]),
            ));
        }
        i += 1;
    }
    assert(v@.take(v.len() as int) =~= v@);
    done.push(cur);
    done
}

/// One move while resolving a client's path inside the vault.
#[derive(Debug, Clone, PartialEq, Eq)]
pub enum PathStep {
    Parent,
    Child(String),
}

pub open spec fn step_view(s: PathStep) -> Option<Seq<char>> {
    match s {
        PathStep::Parent => None,
        PathStep::Child(n) => Some(n@),
    }
}

/// The moves a client-supplied path makes, in order: either slash separates,
/// empty and "." pieces are skipped, ".." goes up, anything else goes into
/// that child. Every child step is a plain name: never empty, ".", "..", and
/// never holding a separator.
pub fn path_steps(filepath: &str) -> (steps: Vec<PathStep>)
    ensures
        steps@.map_values(|s: PathStep| step_view(s)) == steps_spec(split_seps(filepath@)),
        forall|k: int|
            0 <= k < steps@.len() ==> (#[trigger] steps@[k] matches PathStep::Child(n) ==> {
                &&& n@.len() > 0
                &&& n@ != seq!['.']
                &&& n@ != seq!['.', '.']
                &&& forall|j: int| 0 <= j < n@.len() ==> !is_sep(#[trigger] n@[j])
            }),
{
    let chars = to_chars(filepath);
    let parts = split_seps_chars(&chars);
    let ghost all = vviews(parts@);
    let mut steps: Vec<PathStep> = Vec::new();
    let mut i: usize = 0;
    while i < parts.len()
        invariant
            i <= parts.len(),
            all == vviews(parts@),
            steps@.map_values(|s: PathStep| step_view(s)) == steps_spec(all.take(i as int)),
        decreases parts.len() - i,
    {
        let ghost before = steps@.map_values(|s: PathStep| step_view(s));
        assert(all.take(i + 1 as int).drop_last() =~= all.take(i as int));
        assert(all.take(i + 1 as int).last() == all[i as int]);
        let p = &parts[i];
        if p.len() == 0 || is_dot(p) {
        } else if is_dot_dot(p) {
            steps.push(PathStep::Parent);
            assert(steps@.map_values(|s: PathStep| step_view(s)) =~= before.push(None));
        } else {
            let n = p.len();
            let name = string_of(p, 0, n);
            assert(p@.subrange(0, n as int) =~= p@);
            steps.push(PathStep::Child(name));
            assert(steps@.map_values(|s: PathStep| step_view(s)) =~= before.push(Some(all[i as int])));
        }
        i += 1;
    }
    assert(all.take(parts.len() as int) =~= all);
    proof {
        lemma_split_seps_pieces(chars@);
        lemma_steps_named(all);
        assert forall|k: int| 0 <= k < steps@.len() implies (#[trigger] steps@[k] matches PathStep::Child(n) ==> {
            &&& n@.len() > 0
            &&& n@ != seq!['.']
            &&& n@ != seq!['.', '.']
            &&& forall|j: int| 0 <= j < n@.len() ==> !is_sep(#[trigger] n@[j])
        }) by {
            assert(steps@.map_values(|s: PathStep| step_view(s))[k] == step_view(steps@[k]));
        }
    }
    steps
}

/// `raw` with a leading "~" expanded to `home`, the way `expanduser` does.
pub fn expand_user(raw: &str, home: Option<&str>) -> (r: String)
    ensures
        r@ == expand_user_spec(raw@, match home {
            Some(h) => Some(h@),
            None => None,
        }),
{
    let chars = to_chars(raw);
    if chars.len() > 0 && chars[0] == '~' && (chars.len() == 1 || chars[1] == '/' || chars[1]
        == '\\') {
        if let Some(h) = home {
            let mut k: usize = 1;
            while k < chars.len() && (chars[k] == '/' || chars[k] == '\\')
                invariant
                    1 <= k <= chars.len(),
                    trim_seps_start(chars@.skip(k as int)) == trim_seps_start(chars@.skip(1)),
                decreases chars.len() - k,
            {
                assert(chars@.skip(k + 1 as int) =~= chars@.skip(k as int).drop_first());
                k += 1;
            }
            let rest = string_of(&chars, k, chars.len());
            assert(chars@.subrange(k as int, chars@.len() as int) =~= chars@.skip(k as int));
            assert(chars@.drop_first() =~= chars@.skip(1));
            return join(h, rest.as_str());
        }
    }
    String::from_str(raw)
}

} // verus!
