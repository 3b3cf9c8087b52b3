//! Character-level string primitives shared by the parsers.
//!
//! Strings are modelled by their `char` sequences (`s@`); where a function
//! works in byte offsets, by their UTF-8 bytes (`s.spec_bytes()`).
use vstd::prelude::*;
use vstd::utf8::*;
use vstd::string::StringSliceAdditionalSpecFns;

verus! {

// ── Specifications ──

/// Unicode's White_Space property, which is what `char::is_whitespace` and
/// `str::trim` go by.
pub open spec fn is_ws(c: char) -> bool {
    let u: u32 = c as u32;
    ||| 0x09 <= u <= 0x0d
    ||| u == 0x20
    ||| u == 0x85
    ||| u == 0xa0
    ||| u == 0x1680
    ||| 0x2000 <= u <= 0x200a
    ||| u == 0x2028
    ||| u == 0x2029
    ||| u == 0x202f
    ||| u == 0x205f
    ||| u == 0x3000
}

/// `s` without its leading whitespace.
pub open spec fn trim_start(s: Seq<char>) -> Seq<char>
    decreases s.len(),
{
    if s.len() > 0 && is_ws(s[0]) {
        trim_start(s.drop_first())
    } else {
        s
    }
}

/// `s` without its trailing whitespace.
pub open spec fn trim_end(s: Seq<char>) -> Seq<char>
    decreases s.len(),
{
    if s.len() > 0 && is_ws(s.last()) {
        trim_end(s.drop_last())
    } else {
        s
    }
}

/// `s` without leading or trailing whitespace.
pub open spec fn trim(s: Seq<char>) -> Seq<char> {
    trim_end(trim_start(s))
}

/// The part of `s` before the first `c`, or all of `s` when there is none.
pub open spec fn prefix_before(s: Seq<char>, c: char) -> Seq<char>
    decreases s.len(),
{
    if s.len() == 0 {
        s
    } else if s[0] == c {
        Seq::empty()
    } else {
        seq![s[0]] + prefix_before(s.drop_first(), c)
    }
}

/// The pieces of `s` between occurrences of `sep` (what `str::split` yields).
pub open spec fn split_on(s: Seq<char>, sep: char) -> Seq<Seq<char>>
    decreases s.len(),
{
    if s.len() == 0 {
        seq![Seq::empty()]
    } else {
        let pieces = split_on(s.drop_last(), sep);
        if s.last() == sep {
            pieces.push(Seq::empty())
        } else {
            pieces.update(pieces.len() - 1, pieces.last().push(s.last()))
        }
    }
}

/// The pieces joined with `sep` between them (what `[..].join` builds).
pub open spec fn join(parts: Seq<Seq<char>>, sep: char) -> Seq<char>
    decreases parts.len(),
{
    if parts.len() == 0 {
        Seq::empty()
    } else if parts.len() == 1 {
        parts[0]
    } else {
        join(parts.drop_last(), sep).push(sep) + parts.last()
    }
}

/// Whether `c` occurs in `s`.
pub open spec fn has_char(s: Seq<char>, c: char) -> bool {
    exists|i: int| 0 <= i < s.len() && s[i] == c
}

/// Index of the last `c` in `s`, given that there is one.
pub open spec fn last_index_of(s: Seq<char>, c: char) -> int
    decreases s.len(),
{
    if s.len() == 0 {
        -1
    } else if s.last() == c {
        s.len() - 1
    } else {
        last_index_of(s.drop_last(), c)
    }
}

/// The folder part of a slash-separated path: everything before its last '/'.
pub open spec fn dir_of(s: Seq<char>) -> Seq<char> {
    s.take(last_index_of(s, '/'))
}

/// The last slash-separated segment of a path.
pub open spec fn last_segment(s: Seq<char>) -> Seq<char> {
    s.skip(last_index_of(s, '/') + 1)
}

/// The views of a list of strings.
pub open spec fn views(v: Seq<String>) -> Seq<Seq<char>> {
    v.map_values(|s: String| s@)
}

/// The views of a list of character vectors.
pub open spec fn vviews(v: Seq<Vec<char>>) -> Seq<Seq<char>> {
    v.map_values(|x: Vec<char>| x@)
}

/// Index `k` is where the first `c` in `s` stands.
pub open spec fn first_at(s: Seq<char>, c: char, k: int) -> bool {
    0 <= k < s.len() && s[k] == c && forall|j: int| 0 <= j < k ==> s[j] != c
}

/// Index of the first `c` in `s`, given that there is one.
pub open spec fn first_index(s: Seq<char>, c: char) -> int {
    choose|k: int| first_at(s, c, k)
}

/// One decimal digit.
pub open spec fn digit(d: nat) -> char {
    ((d % 10) + 48) as char
}

/// `n` written in decimal.
pub open spec fn decimal(n: nat) -> Seq<char>
    decreases n,
{
    if n < 10 {
        seq![digit(n)]
    } else {
        decimal(n / 10).push(digit(n % 10))
    }
}

/// `n` written in decimal, with a '-' when it is negative.
pub open spec fn signed_decimal(n: int) -> Seq<char> {
    if n < 0 {
        seq!['-'] + decimal((-n) as nat)
    } else {
        decimal(n as nat)
    }
}

/// What `str::to_lowercase` returns for `s`: Unicode's lowercase mapping,
/// which may lengthen a character and reads context for a final sigma.
pub uninterp spec fn lowercase(s: Seq<char>) -> Seq<char>;

// ── Lemmas ──

/// UTF-8 encodes a text piece by piece.
pub proof fn lemma_encode_utf8_add(a: Seq<char>, b: Seq<char>)
    ensures
        encode_utf8(a + b) == encode_utf8(a) + encode_utf8(b),
    decreases a.len(),
{
    if a.len() > 0 {
        lemma_encode_utf8_add(a.drop_first(), b);
        assert((a + b).drop_first() =~= a.drop_first() + b);
        assert((a + b)[0] == a[0]);
        assert(encode_utf8(a) + encode_utf8(b) =~= encode_scalar(a[0] as u32) + (encode_utf8(
            a.drop_first(),
        ) + encode_utf8(b)));
    } else {
        assert(a + b =~= b);
        assert(encode_utf8(a) + encode_utf8(b) =~= encode_utf8(b));
    }
}

/// No piece of a split holds the separator.
pub proof fn lemma_split_pieces(s: Seq<char>, sep: char)
    ensures
        split_on(s, sep).len() >= 1,
        forall|i: int|
            0 <= i < split_on(s, sep).len() ==> !has_char(#[trigger] split_on(s, sep)[i], sep),
    decreases s.len(),
{
    if s.len() > 0 {
        lemma_split_pieces(s.drop_last(), sep);
        let pieces = split_on(s.drop_last(), sep);
        assert forall|i: int| 0 <= i < split_on(s, sep).len() implies !has_char(
            #[trigger] split_on(s, sep)[i],
            sep,
        ) by {
            if s.last() != sep && i == pieces.len() - 1 {
                let x = pieces.last().push(s.last());
                assert(split_on(s, sep)[i] == x);
                assert(!has_char(pieces[i], sep));
                if has_char(x, sep) {
                    let k = choose|k: int| 0 <= k < x.len() && x[k] == sep;
                    assert(pieces[i][k] == sep);
                }
            } else if i < pieces.len() {
                assert(split_on(s, sep)[i] == pieces[i]);
            }
        }
    }
}

/// Splitting after a piece without separators extends the last piece.
pub proof fn lemma_split_append_plain(a: Seq<char>, b: Seq<char>, sep: char)
    requires
        !has_char(b, sep),
    ensures
        split_on(a + b, sep) == split_on(a, sep).update(
            split_on(a, sep).len() - 1,
            split_on(a, sep).last() + b,
        ),
    decreases b.len(),
{
    lemma_split_on_len(a, sep);
    if b.len() == 0 {
        assert(a + b =~= a);
        assert(split_on(a, sep).last() + b =~= split_on(a, sep).last());
        assert(split_on(a, sep).update(split_on(a, sep).len() - 1, split_on(a, sep).last())
            =~= split_on(a, sep));
    } else {
        let b0 = b.drop_last();
        assert(!has_char(b0, sep)) by {
            if has_char(b0, sep) {
                let k = choose|k: int| 0 <= k < b0.len() && b0[k] == sep;
                assert(b[k] == sep);
            }
        }
        assert(b.last() != sep) by {
            assert(b[b.len() - 1] == b.last());
        }
        lemma_split_append_plain(a, b0, sep);
        assert((a + b).drop_last() =~= a + b0);
        assert((a + b).last() == b.last());
        let pa = split_on(a, sep);
        let q = pa.update(pa.len() - 1, pa.last() + b0);
        assert(q.last() == pa.last() + b0);
        assert((pa.last() + b0).push(b.last()) =~= pa.last() + b);
        assert(q.update(q.len() - 1, q.last().push(b.last())) =~= pa.update(
            pa.len() - 1,
            pa.last() + b,
        ));
    }
}

/// Splitting what was joined gives the pieces back, when none holds the
/// separator.
pub proof fn lemma_split_join(parts: Seq<Seq<char>>, sep: char)
    requires
        parts.len() >= 1,
        forall|i: int| 0 <= i < parts.len() ==> !has_char(#[trigger] parts[i], sep),
    ensures
        split_on(join(parts, sep), sep) == parts,
    decreases parts.len(),
{
    if parts.len() == 1 {
        lemma_split_append_plain(Seq::empty(), parts[0], sep);
        assert(Seq::<char>::empty() + parts[0] =~= parts[0]);
        assert(split_on(Seq::<char>::empty(), sep) == seq![Seq::<char>::empty()]);
        assert(Seq::<char>::empty() + parts[0] =~= parts[0]);
        assert(seq![Seq::<char>::empty()].update(0, Seq::<char>::empty() + parts[0]) =~= parts);
    } else {
        let init = parts.drop_last();
        assert forall|i: int| 0 <= i < init.len() implies !has_char(#[trigger] init[i], sep) by {
            assert(init[i] == parts[i]);
        }
        lemma_split_join(init, sep);
        let a = join(init, sep).push(sep);
        assert(!has_char(parts.last(), sep)) by {
            assert(parts[parts.len() - 1] == parts.last());
        }
        lemma_split_append_plain(a, parts.last(), sep);
        lemma_split_on_len(join(init, sep), sep);
        assert(a.drop_last() =~= join(init, sep));
        assert(split_on(a, sep) == init.push(Seq::empty()));
        assert(Seq::<char>::empty() + parts.last() =~= parts.last());
        assert(init.push(Seq::empty()).update(init.len() as int, Seq::<char>::empty() + parts.last())
            =~= parts);
    }
}

proof fn lemma_join_push_char(parts: Seq<Seq<char>>, sep: char, c: char)
    requires
        parts.len() >= 1,
    ensures
        join(parts.update(parts.len() - 1, parts.last().push(c)), sep) == join(parts, sep).push(c),
{
    let q = parts.update(parts.len() - 1, parts.last().push(c));
    if parts.len() == 1 {
        assert(q[0] == parts[0].push(c));
    } else {
        assert(q.drop_last() =~= parts.drop_last());
        assert(q.last() == parts.last().push(c));
        assert(join(parts.drop_last(), sep).push(sep) + parts.last().push(c) =~= (join(
            parts.drop_last(),
            sep,
        ).push(sep) + parts.last()).push(c));
    }
}

/// Joining the pieces of a split gives the text back.
pub proof fn lemma_join_split(s: Seq<char>, sep: char)
    ensures
        join(split_on(s, sep), sep) == s,
    decreases s.len(),
{
    if s.len() == 0 {
        assert(join(seq![Seq::<char>::empty()], sep) == Seq::<char>::empty());
        assert(s =~= Seq::<char>::empty());
    } else {
        lemma_join_split(s.drop_last(), sep);
        lemma_split_on_len(s.drop_last(), sep);
        let pieces = split_on(s.drop_last(), sep);
        if s.last() == sep {
            let q = pieces.push(Seq::empty());
            assert(q.drop_last() =~= pieces);
            assert(join(pieces, sep).push(sep) + Seq::<char>::empty() =~= s);
        } else {
            lemma_join_push_char(pieces, sep, s.last());
            assert(s.drop_last().push(s.last()) =~= s);
        }
    }
}

/// A split always has at least one piece.
pub proof fn lemma_split_on_len(s: Seq<char>, sep: char)
    ensures
        split_on(s, sep).len() >= 1,
    decreases s.len(),
{
    if s.len() > 0 {
        lemma_split_on_len(s.drop_last(), sep);
    }
}

pub proof fn lemma_first_index(s: Seq<char>, c: char, k: int)
    requires
        first_at(s, c, k),
    ensures
        first_index(s, c) == k,
        has_char(s, c),
{
    let j = first_index(s, c);
    assert(first_at(s, c, j));
    if j < k {
        assert(s[j] != c);
    }
    if k < j {
        assert(s[k] != c);
    }
}


/// Taking the prefix before `c` stops at its first occurrence.
pub proof fn lemma_prefix_before(s: Seq<char>, c: char, k: int)
    requires
        0 <= k <= s.len(),
        k < s.len() ==> s[k] == c,
        forall|j: int| 0 <= j < k ==> s[j] != c,
    ensures
        prefix_before(s, c) == s.take(k),
    decreases s.len(),
{
    if s.len() == 0 {
    } else if k == 0 {
    } else {
        lemma_prefix_before(s.drop_first(), c, k - 1);
        assert(s.take(k) =~= seq![s[0]] + s.drop_first().take(k - 1));
    }
}

/// The last index of `c` is where the backward scan stops.
pub proof fn lemma_last_index_of(s: Seq<char>, c: char, k: int)
    requires
        -1 <= k < s.len(),
        k >= 0 ==> s[k] == c,
        forall|j: int| k < j < s.len() ==> s[j] != c,
    ensures
        last_index_of(s, c) == k,
    decreases s.len(),
{
    if s.len() == 0 {
    } else if k == s.len() - 1 {
    } else {
        lemma_last_index_of(s.drop_last(), c, k);
    }
}

/// Trimming stops at the first and last non-whitespace characters.
pub proof fn lemma_trim(s: Seq<char>, a: int, b: int)
    requires
        0 <= a <= b <= s.len(),
        forall|j: int| 0 <= j < a ==> is_ws(#[trigger] s[j]),
        forall|j: int| b <= j < s.len() ==> is_ws(#[trigger] s[j]),
        a < b ==> !is_ws(s[a]) && !is_ws(s[b - 1]),
        a == b ==> b == s.len(),
    ensures
        trim(s) == s.subrange(a, b),
{
    lemma_trim_start(s, a);
    let t = s.skip(a);
    lemma_trim_end(t, b - a);
    assert(t.take(b - a) =~= s.subrange(a, b));
}

proof fn lemma_trim_start(s: Seq<char>, a: int)
    requires
        0 <= a <= s.len(),
        forall|j: int| 0 <= j < a ==> is_ws(#[trigger] s[j]),
        a < s.len() ==> !is_ws(s[a]),
    ensures
        trim_start(s) == s.skip(a),
    decreases a,
{
    if a == 0 {
        assert(s.skip(0) =~= s);
    } else {
        lemma_trim_start(s.drop_first(), a - 1);
        assert(s.drop_first().skip(a - 1) =~= s.skip(a));
    }
}

proof fn lemma_trim_end(s: Seq<char>, b: int)
    requires
        0 <= b <= s.len(),
        forall|j: int| b <= j < s.len() ==> is_ws(#[trigger] s[j]),
        b > 0 ==> !is_ws(s[b - 1]),
    ensures
        trim_end(s) == s.take(b),
    decreases s.len() - b,
{
    if b == s.len() {
        assert(s.take(b) =~= s);
    } else {
        lemma_trim_end(s.drop_last(), b);
        assert(s.drop_last().take(b) =~= s.take(b));
    }
}

/// The byte just after an ASCII byte of valid UTF-8 starts a character, and
/// so does the ASCII byte itself.
pub proof fn lemma_ascii_boundaries(bytes: Seq<u8>, i: int)
    requires
        valid_utf8(bytes),
        0 <= i < bytes.len(),
        bytes[i] < 0x80,
    ensures
        is_char_boundary(bytes, i),
        is_char_boundary(bytes, i + 1),
{
    broadcast use is_char_boundary_iff_not_is_continuation_byte, is_char_boundary_start_end_of_seq;

    assert(!is_continuation_byte(bytes[i]));
    assert(is_char_boundary(bytes, i));
    if i + 1 < bytes.len() {
        valid_utf8_split(bytes, i);
        let rest = bytes.subrange(i, bytes.len() as int);
        assert(valid_utf8(rest));
        assert(rest[0] == bytes[i]);
        assert(length_of_first_scalar(rest) == 1);
        assert(pop_first_scalar(rest) =~= bytes.subrange(i + 1, bytes.len() as int));
        let next = bytes.subrange(i + 1, bytes.len() as int);
        assert(valid_utf8(next));
        assert(next.len() > 0);
        assert(valid_first_scalar(next));
        assert(next[0] == bytes[i + 1]);
        assert(!is_continuation_byte(bytes[i + 1]));
    }
}

/// A character boundary of valid UTF-8 at or after `a` is still one in the
/// bytes from `a` on.
pub proof fn lemma_boundary_in_tail(bytes: Seq<u8>, a: int, b: int)
    requires
        valid_utf8(bytes),
        0 <= a <= b <= bytes.len(),
        is_char_boundary(bytes, a),
        is_char_boundary(bytes, b),
    ensures
        valid_utf8(bytes.subrange(a, bytes.len() as int)),
        is_char_boundary(bytes.subrange(a, bytes.len() as int), b - a),
{
    valid_utf8_split(bytes, a);
    let tail = bytes.subrange(a, bytes.len() as int);
    if b < bytes.len() {
        is_char_boundary_iff_not_is_continuation_byte(bytes, b);
        assert(tail[b - a] == bytes[b]);
        is_char_boundary_iff_not_is_continuation_byte(tail, b - a);
    } else {
        is_char_boundary_start_end_of_seq(tail);
    }
}

// ── Executable helpers ──

/// The part of `s` between two character boundaries, by byte offset.
pub fn byte_slice(s: &str, a: usize, b: usize) -> (r: &str)
    requires
        a <= b <= s.spec_bytes().len(),
        is_char_boundary(s.spec_bytes(), a as int),
        is_char_boundary(s.spec_bytes(), b as int),
    ensures
        r.spec_bytes() == s.spec_bytes().subrange(a as int, b as int),
{
    proof {
        encode_utf8_valid_utf8(s@);
        lemma_boundary_in_tail(s.spec_bytes(), a as int, b as int);
    }
    let (_, tail) = s.split_at(a);
    assert(tail.spec_bytes() =~= s.spec_bytes().subrange(a as int, s.spec_bytes().len() as int));
    let (piece, _) = tail.split_at(b - a);
    assert(piece.spec_bytes() =~= s.spec_bytes().subrange(a as int, b as int));
    piece
}


/// The characters of `s`, in order.
pub fn to_chars(s: &str) -> (out: Vec<char>)
    ensures
        out@ == s@,
{
    let mut out: Vec<char> = Vec::new();
    for c in it: s.chars()
        invariant
            out@ == it.seq().take(it.index() as int),
    {
        out.push(c);
    }
    out
}

/// `String::push`: appends one character to the string.
#[verifier::external_body]
pub(crate) fn push_char(s: &mut String, c: char)
    ensures
        final(s)@ == old(s)@.push(c),
{
    s.push(c);
}

/// Appends `s` to `out`.
pub fn push_str(out: &mut String, s: &str)
    ensures
        final(out)@ == old(out)@ + s@,
{
    out.append(s);
}

fn digit_char(d: u64) -> (c: char)
    requires
        d < 10,
    ensures
        c == digit(d as nat),
{
    ((d as u8) + 48) as char
}

/// Appends `n` written in decimal.
pub fn push_decimal(out: &mut String, n: u64)
    ensures
        final(out)@ == old(out)@ + decimal(n as nat),
    decreases n,
{
    if n >= 10 {
        push_decimal(out, n / 10);
    }
    push_char(out, digit_char(n % 10));
    assert(out@ =~= old(out)@ + decimal(n as nat));
}

/// Appends `n` written in decimal, with a '-' when it is negative.
pub fn push_signed(out: &mut String, n: i64)
    ensures
        final(out)@ == old(out)@ + signed_decimal(n as int),
{
    if n < 0 {
        push_char(out, '-');
        let m: u64 = if n == i64::MIN {
            9223372036854775808u64
        } else {
            (-n) as u64
        };
        push_decimal(out, m);
        assert(out@ =~= old(out)@ + signed_decimal(n as int));
    } else {
        push_decimal(out, n as u64);
    }
}

/// Appends the characters of `v[from..to]` to `s`.
pub fn push_chars(s: &mut String, v: &Vec<char>, from: usize, to: usize)
    requires
        from <= to <= v.len(),
    ensures
        final(s)@ == old(s)@ + v@.subrange(from as int, to as int),
{
    let mut i: usize = from;
    while i < to
        invariant
            from <= i <= to <= v.len(),
            s@ == old(s)@ + v@.subrange(from as int, i as int),
        decreases to - i,
    {
        push_char(s, v[i]);
        i += 1;
        assert(v@.subrange(from as int, i as int) =~= v@.subrange(from as int, i - 1 as int).push(
            v@[i - 1],
        ));
    }
}

/// A string holding `v[from..to]`.
pub fn string_of(v: &Vec<char>, from: usize, to: usize) -> (out: String)
    requires
        from <= to <= v.len(),
    ensures
        out@ == v@.subrange(from as int, to as int),
{
    let mut out = String::new();
    push_chars(&mut out, v, from, to);
    out
}

/// A new vector holding `v[from..to]`.
pub fn chars_between(v: &Vec<char>, from: usize, to: usize) -> (out: Vec<char>)
    requires
        from <= to <= v.len(),
    ensures
        out@ == v@.subrange(from as int, to as int),
{
    let mut out: Vec<char> = Vec::new();
    let mut i: usize = from;
    while i < to
        invariant
            from <= i <= to <= v.len(),
            out@ == v@.subrange(from as int, i as int),
        decreases to - i,
    {
        out.push(v[i]);
        i += 1;
    }
    out
}

/// Whether `c` is Unicode whitespace, as `char::is_whitespace` decides.
pub fn is_whitespace(c: char) -> (b: bool)
    ensures
        b == is_ws(c),
{
    let u: u32 = c as u32;
    (0x09 <= u && u <= 0x0d) || u == 0x20 || u == 0x85 || u == 0xa0 || u == 0x1680 || (0x2000
        <= u && u <= 0x200a) || u == 0x2028 || u == 0x2029 || u == 0x202f || u == 0x205f || u
        == 0x3000
}

/// Bounds of `v` without leading and trailing whitespace.
pub fn trim_bounds(v: &Vec<char>) -> (r: (usize, usize))
    ensures
        r.0 <= r.1 <= v.len(),
        trim(v@) == v@.subrange(r.0 as int, r.1 as int),
{
    let mut a: usize = 0;
    while a < v.len() && is_whitespace(v[a])
        invariant
            a <= v.len(),
            forall|j: int| 0 <= j < a ==> is_ws(#[trigger] v@[j]),
        decreases v.len() - a,
    {
        a += 1;
    }
    let mut b: usize = v.len();
    while b > a && is_whitespace(v[b - 1])
        invariant
            a <= b <= v.len(),
            forall|j: int| b <= j < v.len() ==> is_ws(#[trigger] v@[j]),
        decreases b,
    {
        b -= 1;
    }
    proof {
        if a == b && a < v.len() {
            assert(!is_ws(v@[a as int]));
            assert(is_ws(v@[a as int]));
        }
        lemma_trim(v@, a as int, b as int);
    }
    (a, b)
}

/// `v` without leading and trailing whitespace.
pub fn trim_chars(v: &Vec<char>) -> (out: Vec<char>)
    ensures
        out@ == trim(v@),
{
    let (a, b) = trim_bounds(v);
    chars_between(v, a, b)
}

/// Index of the first `c` in `v` at or after `from`.
pub fn find_char(v: &Vec<char>, c: char, from: usize) -> (r: Option<usize>)
    requires
        from <= v.len(),
    ensures
        r matches Some(i) ==> from <= i < v.len() && v@[i as int] == c && forall|j: int|
            from <= j < i ==> v@[j] != c,
        r is None ==> forall|j: int| from <= j < v.len() ==> v@[j] != c,
{
    let mut i: usize = from;
    while i < v.len()
        invariant
            from <= i <= v.len(),
            forall|j: int| from <= j < i ==> v@[j] != c,
        decreases v.len() - i,
    {
        if v[i] == c {
            return Some(i);
        }
        i += 1;
    }
    None
}

/// Index of the last `c` in `v`.
pub fn rfind_char(v: &Vec<char>, c: char) -> (r: Option<usize>)
    ensures
        r matches Some(i) ==> i < v.len() && v@[i as int] == c && i == last_index_of(v@, c),
        r is None ==> !has_char(v@, c) && last_index_of(v@, c) == -1,
{
    let mut i: usize = v.len();
    while i > 0
        invariant
            i <= v.len(),
            forall|j: int| i <= j < v.len() ==> v@[j] != c,
        decreases i,
    {
        if v[i - 1] == c {
            proof {
                lemma_last_index_of(v@, c, i - 1);
            }
            return Some(i - 1);
        }
        i -= 1;
    }
    proof {
        lemma_last_index_of(v@, c, -1);
    }
    None
}

/// The part of `v` before its first `c`.
pub fn chars_before(v: &Vec<char>, c: char) -> (out: Vec<char>)
    ensures
        out@ == prefix_before(v@, c),
{
    let end = match find_char(v, c, 0) {
        Some(i) => i,
        None => v.len(),
    };
    proof {
        lemma_prefix_before(v@, c, end as int);
    }
    chars_between(v, 0, end)
}

/// Whether `v` begins with `prefix`.
pub fn starts_with_chars(v: &Vec<char>, prefix: &Vec<char>) -> (b: bool)
    ensures
        b == (prefix@.len() <= v@.len() && v@.take(prefix@.len() as int) == prefix@),
{
    if prefix.len() > v.len() {
        return false;
    }
    let mut i: usize = 0;
    while i < prefix.len()
        invariant
            prefix.len() <= v.len(),
            i <= prefix.len(),
            forall|j: int| 0 <= j < i ==> v@[j] == prefix@[j],
        decreases prefix.len() - i,
    {
        if v[i] != prefix[i] {
            assert(v@.take(prefix@.len() as int)[i as int] != prefix@[i as int]);
            return false;
        }
        i += 1;
    }
    assert(v@.take(prefix@.len() as int) =~= prefix@);
    true
}

/// Whether `v` ends with `suffix`.
pub fn ends_with_chars(v: &Vec<char>, suffix: &Vec<char>) -> (b: bool)
    ensures
        b == (suffix@.len() <= v@.len() && v@.skip(v@.len() - suffix@.len()) == suffix@),
{
    if suffix.len() > v.len() {
        return false;
    }
    let off: usize = v.len() - suffix.len();
    let mut i: usize = 0;
    while i < suffix.len()
        invariant
            off + suffix.len() == v.len(),
            i <= suffix.len(),
            forall|j: int| 0 <= j < i ==> v@[off + j] == suffix@[j],
        decreases suffix.len() - i,
    {
        if v[off + i] != suffix[i] {
            assert(v@.skip(off as int)[i as int] != suffix@[i as int]);
            return false;
        }
        i += 1;
    }
    assert(v@.skip(off as int) =~= suffix@);
    true
}

/// Whether two character sequences are equal.
pub fn chars_eq(a: &Vec<char>, b: &Vec<char>) -> (r: bool)
    ensures
        r == (a@ == b@),
{
    if a.len() != b.len() {
        return false;
    }
    let mut i: usize = 0;
    while i < a.len()
        invariant
            a.len() == b.len(),
            i <= a.len(),
            forall|j: int| 0 <= j < i ==> a@[j] == b@[j],
        decreases a.len() - i,
    {
        if a[i] != b[i] {
            return false;
        }
        i += 1;
    }
    assert(a@ =~= b@);
    true
}

/// Every character is ASCII.
pub open spec fn is_ascii_text(s: Seq<char>) -> bool {
    forall|i: int| 0 <= i < s.len() ==> (s[i] as u32) < 128
}

/// `str::to_lowercase`. Claimed: the result is the named `lowercase` of the
/// text; on ASCII text it lower-cases 'A' to 'Z' and leaves every other
/// character as it is, as `to_ascii_lowercase` does; and any text that
/// differs from this one only in ASCII case lower-cases to the same result
/// (each ASCII letter maps to its lower-case form, and is cased in either
/// form, so the context a final sigma reads is the same).
#[verifier::external_body]
pub(crate) fn to_lowercase(s: &str) -> (r: String)
    ensures
        r@ == lowercase(s@),
        is_ascii_text(s@) ==> r@ == s@.map_values(|c: char| crate::wikilinks::ascii_lower(c)),
        forall|t: Seq<char>|
            crate::wikilinks::eq_ignore_ascii_case(t, s@) ==> #[trigger] lowercase(t) == r@,
{
    s.to_lowercase()
}

/// `String::from_utf8`: the bytes as a string, when they are valid UTF-8.
#[verifier::external_body]
pub(crate) fn string_from_utf8(bytes: Vec<u8>) -> (r: Option<String>)
    ensures
        r is Some <==> valid_utf8(bytes@),
        r matches Some(s) ==> s@ == decode_utf8(bytes@),
{
    String::from_utf8(bytes).ok()
}

/// The pieces of `v` between occurrences of `sep`.
pub fn split_chars(v: &Vec<char>, sep: char) -> (out: Vec<Vec<char>>)
    ensures
        vviews(out@) == split_on(v@, sep),
{
    let mut done: Vec<Vec<char>> = Vec::new();
    let mut cur: Vec<char> = Vec::new();
    let mut i: usize = 0;
    while i < v.len()
        invariant
            i <= v.len(),
            vviews(done@).push(cur@) == split_on(v@.take(i as int), sep),
        decreases v.len() - i,
    {
        let ghost before = vviews(done@).push(cur@);
        assert(v@.take(i + 1 as int).drop_last() =~= v@.take(i as int));
        if v[i] == sep {
            done.push(cur);
            cur = Vec::new();
            assert(vviews(done@).push(cur@) =~= before.push(Seq::empty()));
        } else {
            cur.push(v[i]);
            assert(vviews(done@).push(cur@) =~= before.update(
                before.len() - 1,
                before.last().push(v@[i as int]),
            ));
        }
        i += 1;
    }
    assert(v@.take(v.len() as int) =~= v@);
    done.push(cur);
    done
}

} // verus!
