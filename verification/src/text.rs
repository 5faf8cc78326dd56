//! Character-level text utilities over `Seq<char>` models.

use vstd::prelude::*;

verus! {

// ---------------------------------------------------------------------------
// Spec vocabulary
// ---------------------------------------------------------------------------

/// Unicode `White_Space` (what `char::is_whitespace` tests).
pub open spec fn is_ws(c: char) -> bool {
    let u = c as u32;
    (9 <= u <= 13) || u == 32 || u == 0x85 || u == 0xa0 || u == 0x1680 || (0x2000 <= u
        <= 0x200a) || u == 0x2028 || u == 0x2029 || u == 0x202f || u == 0x205f || u == 0x3000
}

/// ASCII lower-casing of one character; every other character is kept.
pub open spec fn lower_char(c: char) -> char {
    if 'A' <= c <= 'Z' {
        ((c as u32) + 32) as char
    } else {
        c
    }
}

/// ASCII upper-casing of one character; every other character is kept.
pub open spec fn upper_char(c: char) -> char {
    if 'a' <= c <= 'z' {
        ((c as u32) - 32) as char
    } else {
        c
    }
}

pub open spec fn ascii_lower(s: Seq<char>) -> Seq<char> {
    s.map_values(|c: char| lower_char(c))
}

pub open spec fn ascii_upper(s: Seq<char>) -> Seq<char> {
    s.map_values(|c: char| upper_char(c))
}

pub open spec fn all_ascii(s: Seq<char>) -> bool {
    forall|i: int| 0 <= i < s.len() ==> (s[i] as u32) < 128
}

/// Joining two ASCII strings gives an ASCII string.
pub proof fn lemma_ascii_concat(a: Seq<char>, b: Seq<char>)
    requires
        all_ascii(a),
        all_ascii(b),
    ensures
        all_ascii(a + b),
{
    assert forall|i: int| 0 <= i < (a + b).len() implies ((a + b)[i] as u32) < 128 by {
        if i < a.len() {
            assert((a + b)[i] == a[i]);
        } else {
            assert((a + b)[i] == b[i - a.len()]);
        }
    }
}

pub open spec fn starts_with(s: Seq<char>, p: Seq<char>) -> bool {
    p.len() <= s.len() && s.take(p.len() as int) == p
}

pub open spec fn ends_with(s: Seq<char>, p: Seq<char>) -> bool {
    p.len() <= s.len() && s.skip(s.len() - p.len()) == p
}

/// Index of the first occurrence of `c`, or -1.
pub open spec fn find(s: Seq<char>, c: char) -> int
    decreases s.len(),
{
    if s.len() == 0 {
        -1
    } else if s[0] == c {
        0
    } else {
        let r = find(s.drop_first(), c);
        if r < 0 {
            -1
        } else {
            r + 1
        }
    }
}

pub proof fn lemma_find(s: Seq<char>, c: char)
    ensures
        -1 <= find(s, c) < s.len(),
        find(s, c) >= 0 ==> s[find(s, c)] == c,
        forall|j: int| 0 <= j < s.len() && (find(s, c) < 0 || j < find(s, c)) ==> s[j] != c,
    decreases s.len(),
{
    if s.len() > 0 && s[0] != c {
        lemma_find(s.drop_first(), c);
        assert forall|j: int| 0 <= j < s.len() && (find(s, c) < 0 || j < find(s, c)) implies s[j]
            != c by {
            if j > 0 {
                assert(s[j] == s.drop_first()[j - 1]);
            }
        }
    }
}

/// Index of the first character of `s` that occurs in `ds`, or -1.
pub open spec fn find_in(s: Seq<char>, ds: Seq<char>) -> int
    decreases s.len(),
{
    if s.len() == 0 {
        -1
    } else if ds.contains(s[0]) {
        0
    } else {
        let r = find_in(s.drop_first(), ds);
        if r < 0 {
            -1
        } else {
            r + 1
        }
    }
}

pub proof fn lemma_find_in(s: Seq<char>, ds: Seq<char>)
    ensures
        -1 <= find_in(s, ds) < s.len(),
        find_in(s, ds) >= 0 ==> ds.contains(s[find_in(s, ds)]),
        forall|j: int|
            0 <= j < s.len() && (find_in(s, ds) < 0 || j < find_in(s, ds)) ==> !ds.contains(
                #[trigger] s[j],
            ),
    decreases s.len(),
{
    if s.len() > 0 && !ds.contains(s[0]) {
        lemma_find_in(s.drop_first(), ds);
        assert forall|j: int|
            0 <= j < s.len() && (find_in(s, ds) < 0 || j < find_in(s, ds)) implies !ds.contains(
            #[trigger] s[j],
        ) by {
            if j > 0 {
                assert(s[j] == s.drop_first()[j - 1]);
            }
        }
    }
}

pub proof fn lemma_find_in_at(s: Seq<char>, ds: Seq<char>, i: int)
    requires
        0 <= i < s.len(),
        ds.contains(s[i]),
        forall|j: int| 0 <= j < i ==> !ds.contains(#[trigger] s[j]),
    ensures
        find_in(s, ds) == i,
{
    lemma_find_in(s, ds);
    let k = find_in(s, ds);
    if k < 0 {
        assert(!ds.contains(s[i]));
    } else if k < i {
        assert(!ds.contains(s[k]));
    } else if k > i {
        assert(!ds.contains(s[i]));
    }
}

/// The piece of `s` before the first character from `ds`.
pub open spec fn before_any(s: Seq<char>, ds: Seq<char>) -> Seq<char> {
    let i = find_in(s, ds);
    if i < 0 {
        s
    } else {
        s.take(i)
    }
}

/// `s` without the prefix `p`, when it has it.
pub open spec fn strip_prefix(s: Seq<char>, p: Seq<char>) -> Option<Seq<char>> {
    if starts_with(s, p) {
        Some(s.skip(p.len() as int))
    } else {
        None
    }
}

/// Index of the last occurrence of `c`, or -1.
pub open spec fn rfind(s: Seq<char>, c: char) -> int
    decreases s.len(),
{
    if s.len() == 0 {
        -1
    } else if s.last() == c {
        s.len() - 1
    } else {
        rfind(s.drop_last(), c)
    }
}

/// `s` with leading white space removed.
pub open spec fn trim_start(s: Seq<char>) -> Seq<char>
    decreases s.len(),
{
    if s.len() > 0 && is_ws(s[0]) {
        trim_start(s.drop_first())
    } else {
        s
    }
}

/// `s` with trailing white space removed.
pub open spec fn trim_end(s: Seq<char>) -> Seq<char>
    decreases s.len(),
{
    if s.len() > 0 && is_ws(s.last()) {
        trim_end(s.drop_last())
    } else {
        s
    }
}

/// `s` with white space removed at both ends.
pub open spec fn trim(s: Seq<char>) -> Seq<char> {
    trim_end(trim_start(s))
}

/// `s` with every trailing `c` removed.
pub open spec fn trim_end_char(s: Seq<char>, c: char) -> Seq<char>
    decreases s.len(),
{
    if s.len() > 0 && s.last() == c {
        trim_end_char(s.drop_last(), c)
    } else {
        s
    }
}

/// `s` with every trailing repetition of the non-empty pattern `p` removed.
pub open spec fn trim_end_str(s: Seq<char>, p: Seq<char>) -> Seq<char>
    decreases s.len(),
{
    if p.len() > 0 && ends_with(s, p) {
        trim_end_str(s.take(s.len() - p.len()), p)
    } else {
        s
    }
}

/// The words of `s` (maximal runs of non-white-space), joined by single
/// spaces: a fold that emits a pending space before each word but the first.
pub open spec fn squeeze_from(s: Seq<char>, out: Seq<char>, gap: bool) -> Seq<char>
    decreases s.len(),
{
    if s.len() == 0 {
        out
    } else if is_ws(s[0]) {
        squeeze_from(s.drop_first(), out, out.len() > 0)
    } else {
        let out2 = if gap {
            out.push(' ')
        } else {
            out
        };
        squeeze_from(s.drop_first(), out2.push(s[0]), false)
    }
}

/// `split_whitespace().join(" ")`.
pub open spec fn squeeze(s: Seq<char>) -> Seq<char> {
    squeeze_from(s, seq![], false)
}

/// The non-empty pieces of `s` split at every `d`.
pub open spec fn segments(s: Seq<char>, d: char) -> Seq<Seq<char>>
    decreases s.len(),
{
    let i = find(s, d);
    proof {
        lemma_find(s, d);
    }
    if i < 0 {
        if s.len() == 0 {
            seq![]
        } else {
            seq![s]
        }
    } else {
        let rest = segments(s.skip(i + 1), d);
        if i == 0 {
            rest
        } else {
            seq![s.take(i)] + rest
        }
    }
}

/// The piece of `s` before the first `d` (all of `s` when there is none).
pub open spec fn before(s: Seq<char>, d: char) -> Seq<char> {
    let i = find(s, d);
    if i < 0 {
        s
    } else {
        s.take(i)
    }
}

/// The piece of `s` after the last `d` (all of `s` when there is none).
pub open spec fn after_last(s: Seq<char>, d: char) -> Seq<char> {
    let i = rfind(s, d);
    if i < 0 {
        s
    } else {
        s.skip(i + 1)
    }
}

pub open spec fn digit(d: nat) -> char {
    ((d % 10) + 48) as char
}

/// Decimal digits of `n`, without sign or padding.
pub open spec fn dec(n: nat) -> Seq<char>
    decreases n,
{
    if n < 10 {
        seq![digit(n)]
    } else {
        dec(n / 10).push(digit(n % 10))
    }
}

/// The number a string of decimal digits spells.
pub open spec fn digits_value(s: Seq<char>) -> int
    decreases s.len(),
{
    if s.len() == 0 {
        0
    } else {
        digits_value(s.drop_last()) * 10 + (s.last() as int - 48)
    }
}

pub open spec fn is_digit(c: char) -> bool {
    '0' <= c <= '9'
}

/// `dec` spells its number, in digits only, in at least one and (below a
/// hundred) at most two characters.
pub proof fn lemma_dec_value(n: nat)
    ensures
        digits_value(dec(n)) == n,
        dec(n).len() >= 1,
        n < 10 ==> dec(n).len() == 1,
        n < 100 ==> dec(n).len() <= 2,
        forall|i: int| 0 <= i < dec(n).len() ==> is_digit(#[trigger] dec(n)[i]),
    decreases n,
{
    if n < 10 {
        assert((digit(n) as int) == n + 48);
        assert(dec(n).drop_last() =~= Seq::<char>::empty());
        assert(dec(n).last() == digit(n));
        assert(digits_value(Seq::<char>::empty()) == 0);
        assert(digits_value(dec(n)) == n);
    } else {
        lemma_dec_value(n / 10);
        let t = dec(n / 10);
        assert(dec(n).drop_last() =~= t);
        assert((digit(n % 10) as int) == n % 10 + 48);
        assert(n == (n / 10) * 10 + n % 10);
        assert(dec(n).last() == digit(n % 10));
        assert(digits_value(dec(n)) == digits_value(t) * 10 + (n % 10));
        assert(digits_value(dec(n)) == n);
        assert forall|i: int| 0 <= i < dec(n).len() implies is_digit(#[trigger] dec(n)[i]) by {
            if i < t.len() {
                assert(dec(n)[i] == t[i]);
            }
        }
    }
}

/// Leading zeros do not change the number.
pub proof fn lemma_zeros_value(k: nat, s: Seq<char>)
    ensures
        digits_value(Seq::new(k, |i: int| '0') + s) == digits_value(s),
    decreases s.len(), k,
{
    let z = Seq::new(k, |i: int| '0');
    if s.len() == 0 {
        assert(z + s =~= z);
        if k > 0 {
            assert(z.drop_last() =~= Seq::new((k - 1) as nat, |i: int| '0'));
            lemma_zeros_value((k - 1) as nat, s);
            assert(Seq::new((k - 1) as nat, |i: int| '0') + s =~= Seq::new((k - 1) as nat, |i: int| '0'));
        }
    } else {
        lemma_zeros_value(k, s.drop_last());
        assert((z + s).drop_last() =~= z + s.drop_last());
        assert((z + s).last() == s.last());
    }
}

/// `s` padded on the left with zeros to at least `w` characters.
pub open spec fn zero_pad(s: Seq<char>, w: nat) -> Seq<char>
    decreases w,
{
    if s.len() >= w {
        s
    } else {
        seq!['0'] + zero_pad(s, (w - 1) as nat)
    }
}

/// Thousands grouping of a digit string: "214309" -> "214,309".
pub open spec fn group3(s: Seq<char>) -> Seq<char>
    decreases s.len(),
{
    if s.len() <= 3 {
        s
    } else {
        group3(s.take(s.len() - 3)) + seq![','] + s.skip(s.len() - 3)
    }
}

/// Concatenation of a sequence of pieces with `sep` between neighbours.
pub open spec fn join(parts: Seq<Seq<char>>, sep: Seq<char>) -> Seq<char>
    decreases parts.len(),
{
    if parts.len() == 0 {
        seq![]
    } else if parts.len() == 1 {
        parts[0]
    } else {
        join(parts.drop_last(), sep) + sep + parts.last()
    }
}

// ---------------------------------------------------------------------------
// Trusted std operations that vstd leaves unspecified
// ---------------------------------------------------------------------------

/// Appends one character to a `String` (`String::push`).
#[verifier::external_body]
pub(crate) fn push_char(s: &mut String, c: char)
    ensures
        final(s)@ == old(s)@.push(c),
{
    s.push(c);
}

/// What `str::to_lowercase` returns for a string: the Unicode lower-case
/// mapping, which takes tables to state.
pub uninterp spec fn unicode_lower(s: Seq<char>) -> Seq<char>;

/// What `str::to_uppercase` returns for a string: the Unicode upper-case
/// mapping, which takes tables to state.
pub uninterp spec fn unicode_upper(s: Seq<char>) -> Seq<char>;

/// `str::to_lowercase`. The result is named; on ASCII input it is the ASCII
/// lower-casing, character by character. Non-ASCII mappings are left unsaid.
#[verifier::external_body]
pub(crate) fn to_lower(s: &str) -> (r: String)
    ensures
        r@ == unicode_lower(s@),
        all_ascii(s@) ==> r@ == ascii_lower(s@),
{
    s.to_lowercase()
}

/// `str::to_uppercase`. The result is named; on ASCII input it is the ASCII
/// upper-casing, character by character. Non-ASCII mappings are left unsaid.
#[verifier::external_body]
pub(crate) fn to_upper(s: &str) -> (r: String)
    ensures
        r@ == unicode_upper(s@),
        all_ascii(s@) ==> r@ == ascii_upper(s@),
{
    s.to_uppercase()
}

// ---------------------------------------------------------------------------
// Executable helpers
// ---------------------------------------------------------------------------

/// The characters of a string slice, in order.
pub fn chars_of(s: &str) -> (v: Vec<char>)
    ensures
        v@ == s@,
{
    let mut v: Vec<char> = Vec::new();
    for c in it: s.chars()
        invariant
            v@ == it.seq().take(it.index() as int),
    {
        v.push(c);
    }
    v
}

/// A `String` holding exactly the given characters.
pub fn string_of(v: &[char]) -> (s: String)
    ensures
        s@ == v@,
{
    let mut s = String::new();
    let mut i: usize = 0;
    while i < v.len()
        invariant
            i <= v.len(),
            s@ == v@.take(i as int),
        decreases v.len() - i,
    {
        push_char(&mut s, v[i]);
        assert(v@.take(i + 1) == v@.take(i as int).push(v@[i as int]));
        i += 1;
    }
    assert(v@.take(v.len() as int) == v@);
    s
}

/// Appends the characters of `src` to `out`.
pub fn extend(out: &mut Vec<char>, src: &[char])
    ensures
        final(out)@ == old(out)@ + src@,
{
    let mut i: usize = 0;
    while i < src.len()
        invariant
            i <= src.len(),
            out@ == old(out)@ + src@.take(i as int),
        decreases src.len() - i,
    {
        out.push(src[i]);
        assert(src@.take(i + 1) == src@.take(i as int).push(src@[i as int]));
        i += 1;
    }
    assert(src@.take(src.len() as int) == src@);
}

/// Appends the characters of a string slice to `out`.
pub fn extend_str(out: &mut Vec<char>, s: &str)
    ensures
        final(out)@ == old(out)@ + s@,
{
    let v = chars_of(s);
    extend(out, &v);
}

/// The sub-sequence `v[from..to]`.
pub fn slice_vec(v: &[char], from: usize, to: usize) -> (r: Vec<char>)
    requires
        from <= to <= v.len(),
    ensures
        r@ == v@.subrange(from as int, to as int),
{
    let mut r: Vec<char> = Vec::new();
    let mut i = from;
    while i < to
        invariant
            from <= i <= to <= v.len(),
            r@ == v@.subrange(from as int, i as int),
        decreases to - i,
    {
        r.push(v[i]);
        assert(v@.subrange(from as int, i + 1) == v@.subrange(from as int, i as int).push(
            v@[i as int],
        ));
        i += 1;
    }
    r
}

/// Equality of two character sequences.
pub fn seq_eq(a: &[char], b: &[char]) -> (r: bool)
    ensures
        r == (a@ == b@),
{
    if a.len() != b.len() {
        return false;
    }
    let mut i: usize = 0;
    while i < a.len()
        invariant
            i <= a.len() == b.len(),
            forall|j: int| 0 <= j < i ==> a@[j] == b@[j],
        decreases a.len() - i,
    {
        if a[i] != b[i] {
            return false;
        }
        i += 1;
    }
    assert(a@ =~= b@);
    true
}

/// Whether `p` is a prefix of `s`.
pub fn has_prefix(s: &[char], p: &[char]) -> (r: bool)
    ensures
        r == starts_with(s@, p@),
{
    if p.len() > s.len() {
        return false;
    }
    let mut i: usize = 0;
    while i < p.len()
        invariant
            i <= p.len() <= s.len(),
            forall|j: int| 0 <= j < i ==> s@[j] == p@[j],
        decreases p.len() - i,
    {
        if s[i] != p[i] {
            assert(s@.take(p.len() as int)[i as int] != p@[i as int]);
            return false;
        }
        i += 1;
    }
    assert(s@.take(p.len() as int) =~= p@);
    true
}

/// Whether `p` is a suffix of `s`.
pub fn has_suffix(s: &[char], p: &[char]) -> (r: bool)
    ensures
        r == ends_with(s@, p@),
{
    if p.len() > s.len() {
        return false;
    }
    let off = s.len() - p.len();
    let mut i: usize = 0;
    while i < p.len()
        invariant
            i <= p.len() <= s.len(),
            off == s.len() - p.len(),
            forall|j: int| 0 <= j < i ==> s@[off + j] == p@[j],
        decreases p.len() - i,
    {
        if s[off + i] != p[i] {
            assert(s@.skip(off as int)[i as int] != p@[i as int]);
            return false;
        }
        i += 1;
    }
    assert(s@.skip(off as int) =~= p@);
    true
}

pub fn is_whitespace(c: char) -> (r: bool)
    ensures
        r == is_ws(c),
{
    let u = c as u32;
    (9 <= u && u <= 13) || u == 32 || u == 0x85 || u == 0xa0 || u == 0x1680 || (0x2000 <= u && u
        <= 0x200a) || u == 0x2028 || u == 0x2029 || u == 0x202f || u == 0x205f || u == 0x3000
}

pub fn lower_ascii_char(c: char) -> (r: char)
    ensures
        r == lower_char(c),
{
    if 'A' <= c && c <= 'Z' {
        let u = ((c as u32) + 32) as u8;
        u as char
    } else {
        c
    }
}


/// Position of the first `c` in `v[from..]`, counted from `from`.
pub fn find_from(v: &[char], c: char, from: usize) -> (r: Option<usize>)
    requires
        from <= v.len(),
    ensures
        match r {
            Some(k) => k == find(v@.skip(from as int), c) && from + k < v.len(),
            None => find(v@.skip(from as int), c) < 0,
        },
{
    let ghost t = v@.skip(from as int);
    proof {
        lemma_find(t, c);
    }
    let mut i = from;
    while i < v.len()
        invariant
            from <= i <= v.len(),
            t == v@.skip(from as int),
            forall|j: int| from <= j < i ==> v@[j] != c,
        decreases v.len() - i,
    {
        if v[i] == c {
            assert(t[i - from] == c);
            assert forall|j: int| 0 <= j < i - from implies t[j] != c by {
                assert(t[j] == v@[from + j]);
            }
            proof {
                lemma_find_at(t, c, i - from);
            }
            return Some(i - from);
        }
        i += 1;
    }
    assert forall|j: int| 0 <= j < t.len() implies t[j] != c by {
        assert(t[j] == v@[from + j]);
    }
    None
}

/// Position of the first `c` in `v`.
pub fn find_char(v: &[char], c: char) -> (r: Option<usize>)
    ensures
        match r {
            Some(k) => k == find(v@, c) && k < v.len(),
            None => find(v@, c) < 0,
        },
{
    assert(v@.skip(0) == v@);
    find_from(v, c, 0)
}

pub proof fn lemma_rfind(s: Seq<char>, c: char)
    ensures
        -1 <= rfind(s, c) < s.len(),
        rfind(s, c) >= 0 ==> s[rfind(s, c)] == c,
        forall|j: int| rfind(s, c) < j < s.len() ==> s[j] != c,
    decreases s.len(),
{
    if s.len() > 0 && s.last() != c {
        lemma_rfind(s.drop_last(), c);
        assert forall|j: int| rfind(s, c) < j < s.len() implies s[j] != c by {
            if j < s.len() - 1 {
                assert(s[j] == s.drop_last()[j]);
            }
        }
    }
}

pub proof fn lemma_find_at(s: Seq<char>, c: char, i: int)
    requires
        0 <= i < s.len(),
        s[i] == c,
        forall|j: int| 0 <= j < i ==> s[j] != c,
    ensures
        find(s, c) == i,
{
    lemma_find(s, c);
    let k = find(s, c);
    if k < 0 {
        assert(s[i] != c);
    } else if k < i {
        assert(s[k] != c);
    } else if k > i {
        assert(s[i] != c);
    }
}

pub proof fn lemma_rfind_at(s: Seq<char>, c: char, i: int)
    requires
        0 <= i < s.len(),
        s[i] == c,
        forall|j: int| i < j < s.len() ==> s[j] != c,
    ensures
        rfind(s, c) == i,
{
    lemma_rfind(s, c);
    let k = rfind(s, c);
    if k < i {
        assert(s[i] != c);
    } else if k > i {
        assert(s[k] != c);
    }
}

/// Position of the last `c` in `v`.
pub fn rfind_char(v: &[char], c: char) -> (r: Option<usize>)
    ensures
        match r {
            Some(k) => k == rfind(v@, c) && k < v.len(),
            None => rfind(v@, c) < 0,
        },
{
    proof {
        lemma_rfind(v@, c);
    }
    let mut i = v.len();
    while i > 0
        invariant
            i <= v.len(),
            forall|j: int| i <= j < v.len() ==> v@[j] != c,
        decreases i,
    {
        if v[i - 1] == c {
            proof {
                lemma_rfind_at(v@, c, i - 1);
            }
            return Some(i - 1);
        }
        i -= 1;
    }
    None
}

/// `before(v, d)`.
pub fn before_char(v: &[char], d: char) -> (r: Vec<char>)
    ensures
        r@ == before(v@, d),
{
    match find_char(v, d) {
        Some(k) => slice_vec(v, 0, k),
        None => slice_vec(v, 0, v.len()),
    }
}

/// `after_last(v, d)`.
pub fn after_last_char(v: &[char], d: char) -> (r: Vec<char>)
    ensures
        r@ == after_last(v@, d),
{
    match rfind_char(v, d) {
        Some(k) => slice_vec(v, k + 1, v.len()),
        None => slice_vec(v, 0, v.len()),
    }
}

/// `trim_start`.
pub fn trim_start_vec(v: &[char]) -> (r: Vec<char>)
    ensures
        r@ == trim_start(v@),
{
    let mut i: usize = 0;
    assert(v@.skip(0) == v@);
    while i < v.len() && is_whitespace(v[i])
        invariant
            i <= v.len(),
            trim_start(v@) == trim_start(v@.skip(i as int)),
        decreases v.len() - i,
    {
        assert(v@.skip(i as int).drop_first() == v@.skip(i + 1));
        i += 1;
    }
    slice_vec(v, i, v.len())
}

/// `trim_end`.
pub fn trim_end_vec(v: &[char]) -> (r: Vec<char>)
    ensures
        r@ == trim_end(v@),
{
    let mut j: usize = v.len();
    assert(v@.take(v.len() as int) == v@);
    while j > 0 && is_whitespace(v[j - 1])
        invariant
            j <= v.len(),
            trim_end(v@) == trim_end(v@.take(j as int)),
        decreases j,
    {
        assert(v@.take(j as int).drop_last() == v@.take(j - 1));
        j -= 1;
    }
    slice_vec(v, 0, j)
}

/// `trim`.
pub fn trim_vec(v: &[char]) -> (r: Vec<char>)
    ensures
        r@ == trim(v@),
{
    let a = trim_start_vec(v);
    trim_end_vec(&a)
}

/// `trim_end_char`.
pub fn trim_end_char_vec(v: &[char], c: char) -> (r: Vec<char>)
    ensures
        r@ == trim_end_char(v@, c),
{
    let mut j: usize = v.len();
    assert(v@.take(v.len() as int) == v@);
    while j > 0 && v[j - 1] == c
        invariant
            j <= v.len(),
            trim_end_char(v@, c) == trim_end_char(v@.take(j as int), c),
        decreases j,
    {
        assert(v@.take(j as int).drop_last() == v@.take(j - 1));
        j -= 1;
    }
    slice_vec(v, 0, j)
}

/// `trim_end_str`.
pub fn trim_end_str_vec(v: &[char], p: &[char]) -> (r: Vec<char>)
    ensures
        r@ == trim_end_str(v@, p@),
{
    let mut cur = slice_vec(v, 0, v.len());
    assert(v@.subrange(0, v.len() as int) == v@);
    if p.len() == 0 {
        return cur;
    }
    while has_suffix(&cur, p)
        invariant
            p@.len() > 0,
            trim_end_str(v@, p@) == trim_end_str(cur@, p@),
        decreases cur.len(),
    {
        let n = cur.len() - p.len();
        let next = slice_vec(&cur, 0, n);
        assert(next@ == cur@.take(cur.len() - p.len()));
        cur = next;
    }
    cur
}

/// `squeeze`.
pub fn squeeze_vec(v: &[char]) -> (r: Vec<char>)
    ensures
        r@ == squeeze(v@),
{
    let mut out: Vec<char> = Vec::new();
    let mut gap = false;
    let mut i: usize = 0;
    assert(v@.skip(0) == v@);
    while i < v.len()
        invariant
            i <= v.len(),
            squeeze(v@) == squeeze_from(v@.skip(i as int), out@, gap),
        decreases v.len() - i,
    {
        assert(v@.skip(i as int).drop_first() == v@.skip(i + 1));
        let c = v[i];
        if is_whitespace(c) {
            gap = out.len() > 0;
        } else {
            if gap {
                out.push(' ');
            }
            out.push(c);
            gap = false;
        }
        i += 1;
    }
    out
}

/// `segments`.
pub fn segments_vec(v: &[char], d: char) -> (r: Vec<Vec<char>>)
    ensures
        r@.len() == segments(v@, d).len(),
        forall|i: int| 0 <= i < r@.len() ==> #[trigger] r@[i]@ == segments(v@, d)[i],
{
    let mut out: Vec<Vec<char>> = Vec::new();
    let ghost acc: Seq<Seq<char>> = seq![];
    let mut pos: usize = 0;
    assert(v@.skip(0) == v@);
    loop
        invariant
            pos <= v.len(),
            out@.len() == acc.len(),
            forall|i: int| 0 <= i < out@.len() ==> #[trigger] out@[i]@ == acc[i],
            segments(v@, d) == acc + segments(v@.skip(pos as int), d),
        decreases v.len() - pos,
    {
        let ghost t = v@.skip(pos as int);
        proof {
            lemma_find(t, d);
        }
        match find_from(v, d, pos) {
            None => {
                if pos < v.len() {
                    let piece = slice_vec(v, pos, v.len());
                    proof {
                        acc = acc.push(piece@);
                    }
                    out.push(piece);
                } else {
                    assert(t.len() == 0);
                }
                return out;
            },
            Some(k) => {
                assert(t.skip(k + 1) == v@.skip(pos + k + 1));
                if k > 0 {
                    let piece = slice_vec(v, pos, pos + k);
                    assert(piece@ == t.take(k as int));
                    proof {
                        acc = acc.push(piece@);
                    }
                    out.push(piece);
                }
                pos = pos + k + 1;
            },
        }
    }
}

/// The digit character of `n % 10`.
pub fn digit_char(n: u64) -> (c: char)
    ensures
        c == digit(n as nat),
{
    let d = (n % 10) as u8 + 48;
    d as char
}

/// Appends `dec(n)` to `out`.
pub fn push_dec(out: &mut Vec<char>, n: u64)
    ensures
        final(out)@ == old(out)@ + dec(n as nat),
    decreases n,
{
    if n >= 10 {
        push_dec(out, n / 10);
    }
    out.push(digit_char(n));
}

/// `dec(n)`.
pub fn dec_vec(n: u64) -> (r: Vec<char>)
    ensures
        r@ == dec(n as nat),
{
    let mut out: Vec<char> = Vec::new();
    push_dec(&mut out, n);
    out
}

/// Appends `group3(s.take(end))` to `out`.
pub fn push_group3(out: &mut Vec<char>, s: &[char], end: usize)
    requires
        end <= s.len(),
    ensures
        final(out)@ == old(out)@ + group3(s@.take(end as int)),
    decreases end,
{
    if end <= 3 {
        let piece = slice_vec(s, 0, end);
        extend(out, &piece);
    } else {
        push_group3(out, s, end - 3);
        out.push(',');
        let piece = slice_vec(s, end - 3, end);
        extend(out, &piece);
        assert(s@.take(end as int).take(end - 3) == s@.take(end - 3));
        assert(s@.take(end as int).skip(end - 3) == s@.subrange(end - 3, end as int));
    }
}

/// `ascii_lower`.
pub fn ascii_lower_vec(v: &[char]) -> (r: Vec<char>)
    ensures
        r@ == ascii_lower(v@),
{
    let mut out: Vec<char> = Vec::new();
    let mut i: usize = 0;
    while i < v.len()
        invariant
            i <= v.len(),
            out@ == ascii_lower(v@.take(i as int)),
        decreases v.len() - i,
    {
        out.push(lower_ascii_char(v[i]));
        assert(ascii_lower(v@.take(i + 1)) =~= ascii_lower(v@.take(i as int)).push(
            lower_char(v@[i as int]),
        ));
        i += 1;
    }
    assert(v@.take(v.len() as int) == v@);
    out
}

/// Appends `join(parts, sep)` to `out`.
pub fn push_join(out: &mut Vec<char>, parts: &Vec<Vec<char>>, sep: &[char])
    ensures
        final(out)@ == old(out)@ + join(parts@.map_values(|p: Vec<char>| p@), sep@),
{
    let ghost m = parts@.map_values(|p: Vec<char>| p@);
    let mut i: usize = 0;
    while i < parts.len()
        invariant
            i <= parts.len(),
            m == parts@.map_values(|p: Vec<char>| p@),
            out@ == old(out)@ + join(m.take(i as int), sep@),
        decreases parts.len() - i,
    {
        let ghost before = out@;
        if i > 0 {
            extend(out, sep);
        }
        extend(out, &parts[i]);
        proof {
            let t = m.take(i + 1);
            assert(t.drop_last() == m.take(i as int));
            assert(t.last() == parts@[i as int]@);
            if i == 0 {
                assert(t.len() == 1);
                assert(join(t, sep@) == t[0]);
            }
        }
        i += 1;
    }
    assert(m.take(parts.len() as int) == m);
}


/// Whether `c` occurs in `ds`.
pub fn contains_char(ds: &[char], c: char) -> (r: bool)
    ensures
        r == ds@.contains(c),
{
    let mut i: usize = 0;
    while i < ds.len()
        invariant
            i <= ds.len(),
            forall|j: int| 0 <= j < i ==> ds@[j] != c,
        decreases ds.len() - i,
    {
        if ds[i] == c {
            assert(ds@[i as int] == c);
            return true;
        }
        i += 1;
    }
    false
}

/// Position of the first character from `ds` in `v[from..]`, counted from `from`.
pub fn find_in_from(v: &[char], ds: &[char], from: usize) -> (r: Option<usize>)
    requires
        from <= v.len(),
    ensures
        match r {
            Some(k) => k == find_in(v@.skip(from as int), ds@) && from + k < v.len(),
            None => find_in(v@.skip(from as int), ds@) < 0,
        },
{
    let ghost t = v@.skip(from as int);
    proof {
        lemma_find_in(t, ds@);
    }
    let mut i = from;
    while i < v.len()
        invariant
            from <= i <= v.len(),
            t == v@.skip(from as int),
            forall|j: int| from <= j < i ==> !ds@.contains(#[trigger] v@[j]),
        decreases v.len() - i,
    {
        if contains_char(ds, v[i]) {
            assert(t[i - from] == v@[i as int]);
            assert forall|j: int| 0 <= j < i - from implies !ds@.contains(#[trigger] t[j]) by {
                assert(t[j] == v@[from + j]);
            }
            proof {
                lemma_find_in_at(t, ds@, i - from);
            }
            return Some(i - from);
        }
        i += 1;
    }
    assert forall|j: int| 0 <= j < t.len() implies !ds@.contains(#[trigger] t[j]) by {
        assert(t[j] == v@[from + j]);
    }
    proof {
        if find_in(t, ds@) >= 0 {
            let k = find_in(t, ds@);
            assert(ds@.contains(t[k]));
        }
    }
    None
}

/// `before_any`.
pub fn before_any_vec(v: &[char], ds: &[char]) -> (r: Vec<char>)
    ensures
        r@ == before_any(v@, ds@),
{
    assert(v@.skip(0) == v@);
    match find_in_from(v, ds, 0) {
        Some(k) => slice_vec(v, 0, k),
        None => slice_vec(v, 0, v.len()),
    }
}

/// `strip_prefix`.
pub fn strip_prefix_vec(v: &[char], p: &[char]) -> (r: Option<Vec<char>>)
    ensures
        match r {
            Some(t) => strip_prefix(v@, p@) == Some(t@),
            None => strip_prefix(v@, p@) is None,
        },
{
    if has_prefix(v, p) {
        let t = slice_vec(v, p.len(), v.len());
        assert(t@ == v@.skip(p@.len() as int));
        Some(t)
    } else {
        None
    }
}


pub open spec fn vecs_view(v: Seq<Vec<char>>) -> Seq<Seq<char>> {
    v.map_values(|x: Vec<char>| x@)
}

/// Whether `k` is one of the sequences in `v`.
pub fn contains_seq(v: &Vec<Vec<char>>, k: &[char]) -> (r: bool)
    ensures
        r == vecs_view(v@).contains(k@),
{
    let mut i: usize = 0;
    while i < v.len()
        invariant
            i <= v.len(),
            forall|j: int| 0 <= j < i ==> v@[j]@ != k@,
        decreases v.len() - i,
    {
        if seq_eq(&v[i], k) {
            assert(vecs_view(v@)[i as int] == k@);
            return true;
        }
        i += 1;
    }
    assert forall|j: int| 0 <= j < vecs_view(v@).len() implies vecs_view(v@)[j] != k@ by {
        assert(v@[j]@ != k@);
    }
    false
}


/// A copy of a vector of strings.
pub fn clone_strings(v: &Vec<String>) -> (r: Vec<String>)
    ensures
        r@ == v@,
{
    let mut out: Vec<String> = Vec::new();
    let mut i: usize = 0;
    while i < v.len()
        invariant
            i <= v.len(),
            out@ == v@.take(i as int),
        decreases v.len() - i,
    {
        out.push(v[i].clone());
        assert(out@ =~= v@.take(i + 1));
        i += 1;
    }
    assert(v@.take(v.len() as int) =~= v@);
    out
}


pub proof fn lemma_zero_pad(s: Seq<char>, w: nat)
    ensures
        zero_pad(s, w) == Seq::new(if s.len() >= w { 0 } else { (w - s.len()) as nat }, |i: int| '0')
            + s,
    decreases w,
{
    if s.len() >= w {
        assert(Seq::new(0, |i: int| '0') + s =~= s);
    } else {
        lemma_zero_pad(s, (w - 1) as nat);
        let k = (w - s.len()) as nat;
        assert(seq!['0'] + (Seq::new((k - 1) as nat, |i: int| '0') + s) =~= Seq::new(k, |i: int| '0')
            + s);
    }
}

/// Decimal digits, zero-padded or not, are ASCII.
pub proof fn lemma_dec_ascii(n: nat, w: nat)
    ensures
        all_ascii(dec(n)),
        all_ascii(zero_pad(dec(n), w)),
{
    lemma_dec_value(n);
    let d = dec(n);
    assert forall|i: int| 0 <= i < d.len() implies (d[i] as u32) < 128 by {
        assert(is_digit(d[i]));
    }
    lemma_zero_pad(d, w);
    let z = Seq::new(if d.len() >= w { 0 } else { (w - d.len()) as nat }, |i: int| '0');
    assert(all_ascii(z));
    lemma_ascii_concat(z, d);
}

/// Appends `zero_pad(dec(n), w)` to `out`.
pub fn push_padded(out: &mut Vec<char>, n: u64, w: usize)
    ensures
        final(out)@ == old(out)@ + zero_pad(dec(n as nat), w as nat),
{
    let d = dec_vec(n);
    proof {
        lemma_zero_pad(d@, w as nat);
    }
    let ghost zeros = Seq::new(if d@.len() >= w { 0 } else { (w - d@.len()) as nat }, |i: int| '0');
    let ghost start = out@;
    let mut k = d.len();
    while k < w
        invariant
            d.len() <= k <= w || (k == d.len() && d.len() >= w),
            out@ == start + Seq::new((k - d.len()) as nat, |i: int| '0'),
        decreases w - k,
    {
        out.push('0');
        assert(out@ =~= start + Seq::new((k + 1 - d.len()) as nat, |i: int| '0'));
        k += 1;
    }
    assert(Seq::new((k - d.len()) as nat, |i: int| '0') =~= zeros);
    extend(out, &d);
    assert(out@ =~= start + (zeros + d@));
}

} // verus!
