//! Stable sorting of keyed items, in the order of `str`'s `Ord`.
//!
//! Listings the client shows (notes in a folder, sub-folders, changed
//! paths) are sorted by text. `str` compares UTF-8 bytes, which orders text
//! by code point, character after character: `seq_lt`.
use vstd::prelude::*;
use vstd::utf8::char_u32_cast;
use crate::text::to_chars;
use crate::wikilinks::{is_less, seq_lt};

verus! {

// ── Specifications ──

/// No key comes after a later one.
pub open spec fn sorted_by_key<T>(s: Seq<(String, T)>) -> bool {
    forall|i: int, j: int| 0 <= i < j < s.len() ==> !seq_lt(#[trigger] s[j].0@, #[trigger] s[i].0@)
}

/// The items of `s` whose key is `k`, in their order in `s`.
pub open spec fn with_key<T>(s: Seq<(String, T)>, k: Seq<char>) -> Seq<(String, T)>
    decreases s.len(),
{
    if s.len() == 0 {
        s
    } else {
        let r = with_key(s.drop_last(), k);
        if s.last().0@ == k {
            r.push(s.last())
        } else {
            r
        }
    }
}

/// A stable sort of `input`: sorted by key, and each key's items in the
/// order they came in.
pub open spec fn stable_sort_of<T>(out: Seq<(String, T)>, input: Seq<(String, T)>) -> bool {
    &&& sorted_by_key(out)
    &&& forall|k: Seq<char>| #[trigger] with_key(out, k) == with_key(input, k)
}

// ── Lemmas on the order ──

pub proof fn lemma_lt_irreflexive(a: Seq<char>)
    ensures
        !seq_lt(a, a),
    decreases a.len(),
{
    if a.len() > 0 {
        lemma_lt_irreflexive(a.drop_first());
    }
}

pub proof fn lemma_lt_transitive(a: Seq<char>, b: Seq<char>, c: Seq<char>)
    requires
        seq_lt(a, b),
        seq_lt(b, c),
    ensures
        seq_lt(a, c),
    decreases a.len(),
{
    if a.len() > 0 && b.len() > 0 && c.len() > 0 {
        if (a[0] as u32) == (b[0] as u32) && (b[0] as u32) == (c[0] as u32) {
            lemma_lt_transitive(a.drop_first(), b.drop_first(), c.drop_first());
        }
    }
}

pub proof fn lemma_lt_total(a: Seq<char>, b: Seq<char>)
    ensures
        a == b || seq_lt(a, b) || seq_lt(b, a),
    decreases a.len(),
{
    if a.len() > 0 && b.len() > 0 {
        if (a[0] as u32) == (b[0] as u32) {
            lemma_lt_total(a.drop_first(), b.drop_first());
            char_u32_cast(a[0], a[0] as u32);
            char_u32_cast(b[0], b[0] as u32);
            if a.drop_first() == b.drop_first() {
                assert(a =~= seq![a[0]] + a.drop_first());
                assert(b =~= seq![b[0]] + b.drop_first());
            }
        }
    } else if a.len() == 0 && b.len() == 0 {
        assert(a =~= b);
    }
}

/// `a < b <= c` gives `a < c`.
pub proof fn lemma_lt_le(a: Seq<char>, b: Seq<char>, c: Seq<char>)
    requires
        seq_lt(a, b),
        !seq_lt(c, b),
    ensures
        seq_lt(a, c),
{
    lemma_lt_total(b, c);
    if b != c {
        lemma_lt_transitive(a, b, c);
    }
}

// ── Lemmas on keyed selections ──

pub proof fn lemma_with_key_add<T>(a: Seq<(String, T)>, b: Seq<(String, T)>, k: Seq<char>)
    ensures
        with_key(a + b, k) == with_key(a, k) + with_key(b, k),
    decreases b.len(),
{
    if b.len() == 0 {
        assert(a + b =~= a);
        assert(with_key(a, k) + with_key(b, k) =~= with_key(a, k));
    } else {
        lemma_with_key_add(a, b.drop_last(), k);
        assert((a + b).drop_last() =~= a + b.drop_last());
        assert((a + b).last() == b.last());
        if b.last().0@ == k {
            assert(with_key(a, k) + with_key(b.drop_last(), k).push(b.last()) =~= (with_key(a, k)
                + with_key(b.drop_last(), k)).push(b.last()));
        }
    }
}

pub proof fn lemma_with_key_none<T>(s: Seq<(String, T)>, k: Seq<char>)
    requires
        forall|i: int| 0 <= i < s.len() ==> (#[trigger] s[i]).0@ != k,
    ensures
        with_key(s, k) == Seq::<(String, T)>::empty(),
    decreases s.len(),
{
    if s.len() > 0 {
        lemma_with_key_none(s.drop_last(), k);
        assert(s.last() == s[s.len() - 1]);
    }
}

pub proof fn lemma_with_key_single<T>(x: (String, T), k: Seq<char>)
    ensures
        with_key(seq![x], k) == if x.0@ == k {
            seq![x]
        } else {
            Seq::empty()
        },
{
    let one = seq![x];
    assert(one.drop_last() =~= Seq::<(String, T)>::empty());
    assert(one.last() == x);
    assert(with_key(one.drop_last(), k) == Seq::<(String, T)>::empty());
    if x.0@ == k {
        assert(Seq::<(String, T)>::empty().push(x) =~= seq![x]);
    }
}

/// Inserting `x` where every key before is no greater and every key after
/// is greater keeps the order and adds `x` last among its equals.
proof fn lemma_insert_stable<T>(s: Seq<(String, T)>, p: int, x: (String, T))
    requires
        0 <= p <= s.len(),
        sorted_by_key(s),
        forall|i: int| 0 <= i < p ==> !seq_lt(x.0@, #[trigger] s[i].0@),
        forall|i: int| p <= i < s.len() ==> seq_lt(x.0@, #[trigger] s[i].0@),
    ensures
        sorted_by_key(s.insert(p, x)),
        forall|k: Seq<char>|
            #[trigger] with_key(s.insert(p, x), k) == if x.0@ == k {
                with_key(s, k).push(x)
            } else {
                with_key(s, k)
            },
{
    let t = s.insert(p, x);
    assert forall|i: int, j: int| 0 <= i < j < t.len() implies !seq_lt(
        #[trigger] t[j].0@,
        #[trigger] t[i].0@,
    ) by {
        if j < p {
            assert(t[i] == s[i] && t[j] == s[j]);
        } else if j == p {
            assert(t[i] == s[i] && t[j] == x);
        } else if i == p {
            assert(t[i] == x && t[j] == s[j - 1]);
            lemma_lt_asym(x.0@, s[j - 1].0@);
        } else if i < p {
            assert(t[i] == s[i] && t[j] == s[j - 1]);
        } else {
            assert(t[i] == s[i - 1] && t[j] == s[j - 1]);
        }
    }
    let front = s.take(p);
    let back = s.skip(p);
    assert(t =~= front + seq![x] + back);
    assert(s =~= front + back);
    assert forall|k: Seq<char>|
        #[trigger] with_key(t, k) == if x.0@ == k {
            with_key(s, k).push(x)
        } else {
            with_key(s, k)
        } by {
        lemma_with_key_add(front + seq![x], back, k);
        lemma_with_key_add(front, seq![x], k);
        lemma_with_key_add(front, back, k);
        lemma_with_key_single(x, k);
        if x.0@ == k {
            assert forall|i: int| 0 <= i < back.len() implies (#[trigger] back[i]).0@ != k by {
                assert(back[i] == s[p + i]);
                lemma_lt_irreflexive(k);
            }
            lemma_with_key_none(back, k);
            assert(with_key(front, k) + seq![x] + Seq::<(String, T)>::empty() =~= (with_key(front, k)
                + Seq::<(String, T)>::empty()).push(x));
        } else {
            assert(with_key(front, k) + Seq::<(String, T)>::empty() =~= with_key(front, k));
        }
    }
}

pub proof fn lemma_lt_asym(a: Seq<char>, b: Seq<char>)
    ensures
        seq_lt(a, b) ==> !seq_lt(b, a),
{
    if seq_lt(a, b) && seq_lt(b, a) {
        lemma_lt_transitive(a, b, a);
        lemma_lt_irreflexive(a);
    }
}

// ── Executable ──

/// Whether `a` sorts before `b`.
pub fn str_lt(a: &str, b: &str) -> (r: bool)
    ensures
        r == seq_lt(a@, b@),
{
    let ac = to_chars(a);
    let bc = to_chars(b);
    is_less(&ac, &bc)
}

/// Sorts `items` by their keys, keeping items with equal keys in the order
/// they came (what a stable `sort_by` on the key gives).
pub fn sort_by_key<T>(items: Vec<(String, T)>) -> (out: Vec<(String, T)>)
    ensures
        stable_sort_of(out@, items@),
{
    let ghost orig = items@;
    let mut rest = items;
    let mut out: Vec<(String, T)> = Vec::new();
    while rest.len() > 0
        invariant
            rest.len() <= orig.len(),
            rest@ == orig.skip(orig.len() - rest.len()),
            sorted_by_key(out@),
            forall|k: Seq<char>|
                #[trigger] with_key(out@, k) == with_key(orig.take(orig.len() - rest.len()), k),
        decreases rest.len(),
    {
        let ghost n = orig.len() - rest.len();
        let x = rest.remove(0);
        assert(x == orig[n]);
        assert(rest@ =~= orig.skip(orig.len() - rest.len()));
        let mut p: usize = 0;
        while p < out.len() && !str_lt(x.0.as_str(), out[p].0.as_str())
            invariant
                p <= out.len(),
                forall|i: int| 0 <= i < p ==> !seq_lt(x.0@, #[trigger] out@[i].0@),
            decreases out.len() - p,
        {
            p += 1;
        }
        proof {
            assert forall|i: int| p <= i < out@.len() implies seq_lt(x.0@, #[trigger] out@[i].0@) by {
                if i > p {
                    lemma_lt_le(x.0@, out@[p as int].0@, out@[i].0@);
                }
            }
            lemma_insert_stable(out@, p as int, x);
            assert(orig.take(n + 1).drop_last() =~= orig.take(n));
            assert(orig.take(n + 1).last() == x);
        }
        out.insert(p, x);
    }
    assert(orig.take(orig.len() as int) =~= orig);
    out
}

// ── Sorting by a key computed from each item ──

/// No item's key comes after a later item's.
pub open spec fn sorted_by<T>(s: Seq<T>, key: spec_fn(T) -> Seq<char>) -> bool {
    forall|i: int, j: int| 0 <= i < j < s.len() ==> !seq_lt(key(#[trigger] s[j]), key(#[trigger] s[i]))
}

/// The items of `s` whose key is `k`, in their order in `s`.
pub open spec fn with_key_by<T>(s: Seq<T>, key: spec_fn(T) -> Seq<char>, k: Seq<char>) -> Seq<T>
    decreases s.len(),
{
    if s.len() == 0 {
        s
    } else {
        let r = with_key_by(s.drop_last(), key, k);
        if key(s.last()) == k {
            r.push(s.last())
        } else {
            r
        }
    }
}

/// A stable sort of `input` by `key`.
pub open spec fn stable_sort_by<T>(out: Seq<T>, input: Seq<T>, key: spec_fn(T) -> Seq<char>) -> bool {
    &&& sorted_by(out, key)
    &&& forall|k: Seq<char>| #[trigger] with_key_by(out, key, k) == with_key_by(input, key, k)
}

/// The items of keyed pairs.
pub open spec fn seconds<T>(p: Seq<(String, T)>) -> Seq<T> {
    p.map_values(|x: (String, T)| x.1)
}

/// Each pair's key is its item's key.
pub open spec fn keyed_by<T>(p: Seq<(String, T)>, key: spec_fn(T) -> Seq<char>) -> bool {
    forall|i: int| 0 <= i < p.len() ==> (#[trigger] p[i]).0@ == key(p[i].1)
}

pub proof fn lemma_keyed_with_key<T>(p: Seq<(String, T)>, key: spec_fn(T) -> Seq<char>, k: Seq<char>)
    requires
        keyed_by(p, key),
    ensures
        with_key_by(seconds(p), key, k) == seconds(with_key(p, k)),
    decreases p.len(),
{
    if p.len() > 0 {
        let init = p.drop_last();
        assert forall|i: int| 0 <= i < init.len() implies (#[trigger] init[i]).0@ == key(init[i].1) by {
            assert(init[i] == p[i]);
        }
        lemma_keyed_with_key(init, key, k);
        assert(seconds(p).drop_last() =~= seconds(init));
        assert(seconds(p).last() == p.last().1);
        assert(p.last() == p[p.len() - 1]);
        if p.last().0@ == k {
            assert(seconds(with_key(p, k)) =~= seconds(with_key(init, k)).push(p.last().1));
        }
    }
}

pub proof fn lemma_keyed_sorted<T>(p: Seq<(String, T)>, key: spec_fn(T) -> Seq<char>)
    requires
        keyed_by(p, key),
        sorted_by_key(p),
    ensures
        sorted_by(seconds(p), key),
{
    let s = seconds(p);
    assert forall|i: int, j: int| 0 <= i < j < s.len() implies !seq_lt(key(#[trigger] s[j]), key(#[trigger] s[i])) by {
        assert(s[i] == p[i].1 && s[j] == p[j].1);
        assert(p[i].0@ == key(p[i].1));
        assert(p[j].0@ == key(p[j].1));
    }
}

proof fn lemma_with_key_has<T>(s: Seq<(String, T)>, k: Seq<char>, i: int)
    requires
        0 <= i < s.len(),
        s[i].0@ == k,
    ensures
        with_key(s, k).contains(s[i]),
    decreases s.len(),
{
    if i < s.len() - 1 {
        lemma_with_key_has(s.drop_last(), k, i);
        assert(s.drop_last()[i] == s[i]);
        let r = with_key(s.drop_last(), k);
        let j = choose|j: int| 0 <= j < r.len() && r[j] == s[i];
        if s.last().0@ == k {
            assert(r.push(s.last())[j] == s[i]);
        }
    } else {
        assert(s.last() == s[i]);
        let r = with_key(s.drop_last(), k);
        assert(r.push(s.last())[r.len() as int] == s[i]);
    }
}

proof fn lemma_with_key_from<T>(s: Seq<(String, T)>, k: Seq<char>, x: (String, T))
    requires
        with_key(s, k).contains(x),
    ensures
        s.contains(x),
    decreases s.len(),
{
    if s.len() > 0 {
        let r = with_key(s.drop_last(), k);
        if s.last().0@ == k && x == s.last() {
            assert(s[s.len() - 1] == x);
        } else {
            if s.last().0@ == k {
                let j = choose|j: int| 0 <= j < r.push(s.last()).len() && r.push(s.last())[j] == x;
                assert(r[j] == x);
            }
            lemma_with_key_from(s.drop_last(), k, x);
            let j = choose|j: int| 0 <= j < s.drop_last().len() && s.drop_last()[j] == x;
            assert(s[j] == x);
        }
    }
}

/// Sorting keeps each pair's key tied to its item.
pub proof fn lemma_sort_keeps_keyed<T>(out: Seq<(String, T)>, input: Seq<(String, T)>, key: spec_fn(T) -> Seq<char>)
    requires
        stable_sort_of(out, input),
        keyed_by(input, key),
    ensures
        keyed_by(out, key),
{
    assert forall|i: int| 0 <= i < out.len() implies (#[trigger] out[i]).0@ == key(out[i].1) by {
        let k = out[i].0@;
        lemma_with_key_has(out, k, i);
        assert(with_key(out, k) == with_key(input, k));
        lemma_with_key_from(input, k, out[i]);
        let j = choose|j: int| 0 <= j < input.len() && input[j] == out[i];
        assert(input[j].0@ == key(input[j].1));
    }
}

/// A stable sort of keyed pairs sorts their items by the same key.
pub proof fn lemma_sorted_seconds<T>(out: Seq<(String, T)>, input: Seq<(String, T)>, key: spec_fn(T) -> Seq<char>)
    requires
        stable_sort_of(out, input),
        keyed_by(input, key),
    ensures
        stable_sort_by(seconds(out), seconds(input), key),
{
    lemma_sort_keeps_keyed(out, input, key);
    lemma_keyed_sorted(out, key);
    assert forall|k: Seq<char>| #[trigger] with_key_by(seconds(out), key, k) == with_key_by(seconds(input), key, k) by {
        lemma_keyed_with_key(out, key, k);
        lemma_keyed_with_key(input, key, k);
        assert(with_key(out, k) == with_key(input, k));
    }
}

/// The items of keyed pairs, in order.
pub fn take_seconds<T>(pairs: Vec<(String, T)>) -> (out: Vec<T>)
    ensures
        out@ == seconds(pairs@),
{
    let mut rest = pairs;
    let ghost orig = rest@;
    let mut out: Vec<T> = Vec::new();
    while rest.len() > 0
        invariant
            rest.len() <= orig.len(),
            rest@ == orig.skip(orig.len() - rest.len()),
            out@ == seconds(orig.take(orig.len() - rest.len())),
        decreases rest.len(),
    {
        let ghost n = orig.len() - rest.len();
        let (k, item) = rest.remove(0);
        assert(rest@ =~= orig.skip(orig.len() - rest.len()));
        assert(orig[n] == (k, item));
        let ghost gi = item;
        let ghost prev = out@;
        out.push(item);
        assert(out@ == prev.push(gi));
        assert(orig.take(n + 1) =~= orig.take(n).push(orig[n]));
        assert(seconds(orig.take(n + 1)) =~= seconds(orig.take(n)).push(gi));
    }
    assert(orig.take(orig.len() as int) =~= orig);
    out
}

// ── Distinct keys ──

/// `p` is among `names`.
pub open spec fn names_path(names: Seq<String>, p: Seq<char>) -> bool {
    exists|i: int| 0 <= i < names.len() && #[trigger] names[i]@ == p
}

/// `p` is a key of `items`.
pub open spec fn keys_path<T>(items: Seq<(String, T)>, p: Seq<char>) -> bool {
    exists|i: int| 0 <= i < items.len() && (#[trigger] items[i]).0@ == p
}

pub open spec fn strictly_increasing(s: Seq<String>) -> bool {
    forall|i: int, j: int| 0 <= i < j < s.len() ==> seq_lt(#[trigger] s[i]@, #[trigger] s[j]@)
}


pub proof fn lemma_with_key_nonempty<T>(s: Seq<(String, T)>, k: Seq<char>)
    ensures
        with_key(s, k).len() > 0 <==> exists|i: int| 0 <= i < s.len() && (#[trigger] s[i]).0@ == k,
    decreases s.len(),
{
    if s.len() > 0 {
        lemma_with_key_nonempty(s.drop_last(), k);
        if exists|i: int| 0 <= i < s.drop_last().len() && (#[trigger] s.drop_last()[i]).0@ == k {
            let i = choose|i: int| 0 <= i < s.drop_last().len() && (#[trigger] s.drop_last()[i]).0@ == k;
            assert(s[i] == s.drop_last()[i]);
        }
        if exists|i: int| 0 <= i < s.len() && (#[trigger] s[i]).0@ == k {
            let i = choose|i: int| 0 <= i < s.len() && (#[trigger] s[i]).0@ == k;
            if i < s.len() - 1 {
                assert(s.drop_last()[i] == s[i]);
            }
        }
    }
}

pub proof fn lemma_keys_push<T>(s: Seq<(String, T)>, x: (String, T), p: Seq<char>)
    ensures
        keys_path(s.push(x), p) <==> keys_path(s, p) || x.0@ == p,
{
    let t = s.push(x);
    if keys_path(t, p) {
        let i = choose|i: int| 0 <= i < t.len() && (#[trigger] t[i]).0@ == p;
        if i < s.len() {
            assert(s[i] == t[i]);
        }
    }
    if keys_path(s, p) {
        let i = choose|i: int| 0 <= i < s.len() && (#[trigger] s[i]).0@ == p;
        assert(t[i] == s[i]);
    }
    if x.0@ == p {
        assert(t[s.len() as int] == x);
    }
}

pub proof fn lemma_names_push(s: Seq<String>, x: String, p: Seq<char>)
    ensures
        names_path(s.push(x), p) <==> names_path(s, p) || x@ == p,
{
    let t = s.push(x);
    if names_path(t, p) {
        let i = choose|i: int| 0 <= i < t.len() && #[trigger] t[i]@ == p;
        if i < s.len() {
            assert(s[i] == t[i]);
        }
    }
    if names_path(s, p) {
        let i = choose|i: int| 0 <= i < s.len() && #[trigger] s[i]@ == p;
        assert(t[i] == s[i]);
    }
    if x@ == p {
        assert(t[s.len() as int] == x);
    }
}

pub proof fn lemma_increasing_push(s: Seq<String>, x: String)
    requires
        strictly_increasing(s),
        s.len() > 0 ==> seq_lt(s.last()@, x@),
    ensures
        strictly_increasing(s.push(x)),
{
    let t = s.push(x);
    assert forall|a: int, b: int| 0 <= a < b < t.len() implies seq_lt(#[trigger] t[a]@, #[trigger] t[b]@) by {
        if b == s.len() {
            assert(t[b] == x);
            assert(t[a] == s[a]);
            if a < s.len() - 1 {
                assert(seq_lt(s[a]@, s[s.len() - 1]@));
                crate::sorting::lemma_lt_transitive(s[a]@, s.last()@, x@);
            }
        } else {
            assert(t[a] == s[a] && t[b] == s[b]);
        }
    }
}


/// The keys of sorted items, each once.
pub fn distinct_keys(sorted: &Vec<(String, ())>) -> (out: Vec<String>)
    requires
        sorted_by_key(sorted@),
    ensures
        strictly_increasing(out@),
        forall|p: Seq<char>| #[trigger] names_path(out@, p) <==> keys_path(sorted@, p),
{
    let ghost srt = sorted@;
    let mut out: Vec<String> = Vec::new();
    let mut j: usize = 0;
    assert(srt.take(0) =~= Seq::<(String, ())>::empty());
    while j < sorted.len()
        invariant
            j <= sorted.len(),
            srt == sorted@,
            sorted_by_key(srt),
            strictly_increasing(out@),
            j == 0 ==> out@.len() == 0,
            j > 0 ==> out@.len() > 0 && out@.last()@ == srt[j - 1].0@,
            forall|p: Seq<char>| #[trigger] names_path(out@, p) <==> keys_path(srt.take(j as int), p),
        decreases sorted.len() - j,
    {
        let k = &sorted[j].0;
        let ghost prev = out@;
        assert(srt.take(j + 1) =~= srt.take(j as int).push(srt[j as int]));
        let fresh = if j == 0 {
            true
        } else {
            !(out[out.len() - 1] == *k)
        };
        if fresh {
            proof {
                if j > 0 {
                    assert(!seq_lt(srt[j as int].0@, srt[j - 1].0@));
                    lemma_lt_total(srt[j - 1].0@, srt[j as int].0@);
                }
                lemma_increasing_push(prev, *k);
            }
            out.push(k.clone());
        }
        proof {
            assert forall|p: Seq<char>|
                #[trigger] names_path(out@, p) <==> keys_path(srt.take(j + 1), p) by {
                lemma_keys_push(srt.take(j as int), srt[j as int], p);
                assert(names_path(prev, p) <==> keys_path(srt.take(j as int), p));
                if fresh {
                    lemma_names_push(prev, *k, p);
                } else {
                    if k@ == p {
                        assert(prev[prev.len() - 1]@ == p);
                    }
                }
            }
        }
        j += 1;
    }
    assert(srt.take(srt.len() as int) =~= srt);
    out
}


// ── Sorting strings ──

/// Strings as keyed items, each its own key.
pub open spec fn self_keyed(s: Seq<String>) -> Seq<(String, ())> {
    s.map_values(|x: String| (x, ()))
}

/// The strings of self-keyed items.
pub fn firsts(items: Vec<(String, ())>) -> (out: Vec<String>)
    ensures
        self_keyed(out@) == items@,
{
    let mut rest = items;
    let ghost orig = rest@;
    let mut out: Vec<String> = Vec::new();
    while rest.len() > 0
        invariant
            rest.len() <= orig.len(),
            rest@ == orig.skip(orig.len() - rest.len()),
            self_keyed(out@) == orig.take(orig.len() - rest.len()),
        decreases rest.len(),
    {
        let ghost n = orig.len() - rest.len();
        let (s, u) = rest.remove(0);
        assert(rest@ =~= orig.skip(orig.len() - rest.len()));
        assert(orig[n] == (s, u));
        let ghost gs = s;
        let ghost prev = out@;
        out.push(s);
        assert(out@ == prev.push(gs));
        assert(self_keyed(out@) =~= self_keyed(prev).push((gs, ())));
        assert(orig.take(n + 1) =~= orig.take(n).push(orig[n]));
    }
    assert(orig.take(orig.len() as int) =~= orig);
    out
}

/// Sorts strings in `str`'s order.
pub fn sort_strings(v: Vec<String>) -> (out: Vec<String>)
    ensures
        stable_sort_of(self_keyed(out@), self_keyed(v@)),
{
    let mut pairs: Vec<(String, ())> = Vec::new();
    let mut rest = v;
    let ghost orig = rest@;
    while rest.len() > 0
        invariant
            rest.len() <= orig.len(),
            rest@ == orig.skip(orig.len() - rest.len()),
            pairs@ == self_keyed(orig.take(orig.len() - rest.len())),
        decreases rest.len(),
    {
        let ghost n = orig.len() - rest.len();
        let s = rest.remove(0);
        assert(rest@ =~= orig.skip(orig.len() - rest.len()));
        assert(orig[n] == s);
        pairs.push((s, ()));
        assert(pairs@ =~= self_keyed(orig.take(n + 1)));
    }
    assert(orig.take(orig.len() as int) =~= orig);
    let sorted = sort_by_key(pairs);
    firsts(sorted)
}

} // verus!
