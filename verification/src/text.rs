//! Character-level helpers shared by every module that reads or writes text.
//!
//! Text is modelled as `Seq<char>`, which is what `String` and `&str` view as.
//! The executable helpers work on `Vec<char>` and build `String`s one
//! character at a time, so that every transformation in the crate can be
//! stated over sequences of characters and proved.

use vstd::prelude::*;

verus! {

broadcast use vstd::string::group_string_axioms;

// ------------------------------------------------------------------ building

/// Appends one character to a string (`String::push`).
#[verifier::external_body]
pub(crate) fn push_char(out: &mut String, c: char)
    ensures
        final(out)@ == old(out)@.push(c),
{
    out.push(c);
}

/// The characters of a string, in order.
pub fn chars_of(s: &str) -> (v: Vec<char>)
    ensures
        v@ == s@,
{
    let mut v: Vec<char> = Vec::new();
    for c in it: s.chars()
        invariant
            v@ == it.seq().take(it.index() as int),
    {
        v.push(c);
    }
    v
}

/// Appends every character of `chars` to `out`.
pub(crate) fn push_chars(out: &mut String, chars: &[char])
    ensures
        final(out)@ == old(out)@ + chars@,
{
    let mut i: usize = 0;
    while i < chars.len()
        invariant
            i <= chars.len(),
            out@ == old(out)@ + chars@.take(i as int),
        decreases chars.len() - i,
    {
        push_char(out, chars[i]);
        assert(chars@.take(i + 1) == chars@.take(i as int).push(chars@[i as int]));
        i = i + 1;
    }
    assert(chars@.take(chars.len() as int) == chars@);
}


/// A string holding exactly these characters.
pub fn string_of(chars: &[char]) -> (s: String)
    ensures
        s@ == chars@,
{
    let mut s = String::new();
    push_chars(&mut s, chars);
    s
}

/// Appends a string slice to a vector of characters.
pub fn extend_chars(out: &mut Vec<char>, s: &str)
    ensures
        final(out)@ == old(out)@ + s@,
{
    let v = chars_of(s);
    let mut i: usize = 0;
    while i < v.len()
        invariant
            i <= v.len(),
            v@ == s@,
            out@ == old(out)@ + v@.take(i as int),
        decreases v.len() - i,
    {
        out.push(v[i]);
        assert(v@.take(i + 1) == v@.take(i as int).push(v@[i as int]));
        i = i + 1;
    }
    assert(v@.take(v.len() as int) == v@);
}

/// Appends a sequence of characters to a vector of characters.
pub fn extend_vec(out: &mut Vec<char>, v: &[char])
    ensures
        final(out)@ == old(out)@ + v@,
{
    let mut i: usize = 0;
    while i < v.len()
        invariant
            i <= v.len(),
            out@ == old(out)@ + v@.take(i as int),
        decreases v.len() - i,
    {
        out.push(v[i]);
        assert(v@.take(i + 1) == v@.take(i as int).push(v@[i as int]));
        i = i + 1;
    }
    assert(v@.take(v.len() as int) == v@);
}

/// A copy of a run of characters.
pub fn copy_range(v: &[char], from: usize, to: usize) -> (r: Vec<char>)
    requires
        from <= to <= v.len(),
    ensures
        r@ == v@.subrange(from as int, to as int),
{
    let mut r: Vec<char> = Vec::new();
    let mut i = from;
    while i < to
        invariant
            from <= i <= to <= v.len(),
            r@ == v@.subrange(from as int, i as int),
        decreases to - i,
    {
        r.push(v[i]);
        assert(v@.subrange(from as int, i + 1) == v@.subrange(from as int, i as int).push(
            v@[i as int],
        ));
        i = i + 1;
    }
    r
}

// ------------------------------------------------------------------ matching

/// `s` begins with `p`.
pub open spec fn starts_with(s: Seq<char>, p: Seq<char>) -> bool {
    p.len() <= s.len() && s.take(p.len() as int) == p
}

/// `s` ends with `p`.
pub open spec fn ends_with(s: Seq<char>, p: Seq<char>) -> bool {
    p.len() <= s.len() && s.skip(s.len() - p.len()) == p
}

/// `p` occurs in `s` at position `at`.
pub open spec fn occurs_at(s: Seq<char>, p: Seq<char>, at: int) -> bool {
    0 <= at && at + p.len() <= s.len() && s.subrange(at, at + p.len()) == p
}

/// `p` occurs somewhere in `s`.
pub open spec fn contains(s: Seq<char>, p: Seq<char>) -> bool {
    exists|at: int| occurs_at(s, p, at)
}

/// The first position at or after `from` where `p` occurs in `s`.
pub open spec fn find_from(s: Seq<char>, p: Seq<char>, from: int) -> Option<int>
    decreases s.len() + 1 - from,
{
    if from < 0 || from + p.len() > s.len() {
        None
    } else if occurs_at(s, p, from) {
        Some(from)
    } else {
        find_from(s, p, from + 1)
    }
}

/// The first position where `p` occurs in `s`.
pub open spec fn find(s: Seq<char>, p: Seq<char>) -> Option<int> {
    find_from(s, p, 0)
}

/// What `find_from` returns, characterised directly.
pub proof fn lemma_find_from(s: Seq<char>, p: Seq<char>, from: int)
    requires
        0 <= from,
    ensures
        match find_from(s, p, from) {
            Some(at) => from <= at && occurs_at(s, p, at) && forall|j: int|
                from <= j < at ==> !occurs_at(s, p, j),
            None => forall|j: int| from <= j ==> !occurs_at(s, p, j),
        },
    decreases s.len() + 1 - from,
{
    if from + p.len() > s.len() {
    } else if occurs_at(s, p, from) {
    } else {
        lemma_find_from(s, p, from + 1);
        assert forall|j: int| from <= j && !(from + 1 <= j) implies !occurs_at(s, p, j) by {}
    }
}

/// Whether `p` occurs at position `at` of `s`.
pub fn matches_at(s: &[char], p: &[char], at: usize) -> (b: bool)
    ensures
        b == occurs_at(s@, p@, at as int),
{
    if at > s.len() || p.len() > s.len() - at {
        return false;
    }
    let mut i: usize = 0;
    while i < p.len()
        invariant
            at + p.len() <= s.len(),
            i <= p.len(),
            forall|j: int| 0 <= j < i ==> s@[at + j] == p@[j],
        decreases p.len() - i,
    {
        if s[at + i] != p[i] {
            assert(s@.subrange(at as int, at + p.len())[i as int] != p@[i as int]);
            return false;
        }
        i = i + 1;
    }
    assert(s@.subrange(at as int, at + p.len()) == p@);
    true
}

/// The first position at or after `from` where `p` occurs in `s`.
pub fn find_in(s: &[char], p: &[char], from: usize) -> (r: Option<usize>)
    ensures
        match r {
            Some(at) => find_from(s@, p@, from as int) == Some(at as int),
            None => find_from(s@, p@, from as int) is None,
        },
{
    proof {
        lemma_find_from(s@, p@, from as int);
    }
    if from > s.len() || p.len() > s.len() - from {
        return None;
    }
    let last = s.len() - p.len();
    let mut i = from;
    while i < last
        invariant
            from <= i <= last,
            last == s.len() - p.len(),
            forall|j: int| from <= j < i ==> !occurs_at(s@, p@, j),
        decreases last - i,
    {
        if matches_at(s, p, i) {
            proof {
                lemma_find_from(s@, p@, from as int);
            }
            return Some(i);
        }
        i = i + 1;
    }
    if matches_at(s, p, last) {
        proof {
            lemma_find_from(s@, p@, from as int);
        }
        return Some(last);
    }
    proof {
        lemma_find_from(s@, p@, from as int);
        assert forall|j: int| from <= j implies !occurs_at(s@, p@, j) by {}
    }
    None
}

/// Where a single character first occurs is the first position holding it.
pub proof fn lemma_find_char(s: Seq<char>, c: char, j: int)
    requires
        0 <= j <= s.len(),
        forall|i: int| 0 <= i < j ==> s[i] != c,
        j == s.len() || s[j] == c,
    ensures
        find(s, seq![c]) == if j < s.len() {
            Some(j)
        } else {
            None::<int>
        },
{
    lemma_find_from(s, seq![c], 0);
    assert forall|i: int| 0 <= i < j implies !occurs_at(s, seq![c], i) by {
        if occurs_at(s, seq![c], i) {
            assert(s.subrange(i, i + 1)[0] == s[i]);
        }
    }
    if j < s.len() {
        assert(s.subrange(j, j + 1) =~= seq![c]);
        assert(occurs_at(s, seq![c], j));
    } else {
        assert forall|i: int| 0 <= i implies !occurs_at(s, seq![c], i) by {
            if i < j {
            }
        }
    }
}

/// Whether `s` begins with `p`.
pub fn has_prefix(s: &[char], p: &[char]) -> (b: bool)
    ensures
        b == starts_with(s@, p@),
{
    let b = matches_at(s, p, 0);
    proof {
        if p.len() <= s.len() {
            assert(s@.subrange(0, p@.len() as int) == s@.take(p@.len() as int));
        }
    }
    b
}

/// Whether `s` ends with `p`.
pub fn has_suffix(s: &[char], p: &[char]) -> (b: bool)
    ensures
        b == ends_with(s@, p@),
{
    if p.len() > s.len() {
        return false;
    }
    let b = matches_at(s, p, s.len() - p.len());
    proof {
        assert(s@.subrange(s.len() - p.len(), s.len() as int) == s@.skip(s.len() - p.len()));
    }
    b
}

/// Whether two runs of characters are the same.
pub fn equal(a: &[char], b: &[char]) -> (r: bool)
    ensures
        r == (a@ == b@),
{
    if a.len() != b.len() {
        return false;
    }
    let mut i: usize = 0;
    while i < a.len()
        invariant
            i <= a.len() == b.len(),
            forall|j: int| 0 <= j < i ==> a@[j] == b@[j],
        decreases a.len() - i,
    {
        if a[i] != b[i] {
            return false;
        }
        i = i + 1;
    }
    assert(a@ =~= b@);
    true
}

/// Whether two strings hold the same text.
pub fn same_text(a: &str, b: &str) -> (r: bool)
    ensures
        r == (a@ == b@),
{
    let x = chars_of(a);
    let y = chars_of(b);
    equal(x.as_slice(), y.as_slice())
}

// ------------------------------------------------------------------ classes

/// The characters with the Unicode `White_Space` property, which is what
/// `char::is_whitespace` tests for.
pub open spec fn is_space(c: char) -> bool {
    ||| ('\u{9}' <= c && c <= '\u{d}')
    ||| c == ' '
    ||| c == '\u{85}'
    ||| c == '\u{a0}'
    ||| c == '\u{1680}'
    ||| ('\u{2000}' <= c && c <= '\u{200a}')
    ||| c == '\u{2028}'
    ||| c == '\u{2029}'
    ||| c == '\u{202f}'
    ||| c == '\u{205f}'
    ||| c == '\u{3000}'
}

/// Whether a character is white space.
pub fn space(c: char) -> (b: bool)
    ensures
        b == is_space(c),
{
    ('\u{9}' <= c && c <= '\u{d}') || c == ' ' || c == '\u{85}' || c == '\u{a0}' || c
        == '\u{1680}' || ('\u{2000}' <= c && c <= '\u{200a}') || c == '\u{2028}' || c
        == '\u{2029}' || c == '\u{202f}' || c == '\u{205f}' || c == '\u{3000}'
}

/// An ASCII letter.
pub open spec fn is_ascii_alpha(c: char) -> bool {
    ('a' <= c && c <= 'z') || ('A' <= c && c <= 'Z')
}

/// An ASCII digit.
pub open spec fn is_ascii_digit(c: char) -> bool {
    '0' <= c && c <= '9'
}

/// An ASCII letter or digit.
pub open spec fn is_ascii_alnum(c: char) -> bool {
    is_ascii_alpha(c) || is_ascii_digit(c)
}

/// Whether `char::is_alphanumeric` holds of `c`: alphabetic or numeric in
/// Unicode's sense.
pub uninterp spec fn unicode_alnum(c: char) -> bool;

/// What `char::to_uppercase` yields for `c`.
pub uninterp spec fn unicode_upper(c: char) -> Seq<char>;

/// Whether a character is alphabetic or numeric (`char::is_alphanumeric`).
///
/// Claims that the answer is what `unicode_alnum` names, and that for an
/// ASCII character it is whether it is a letter or a digit.
#[verifier::external_body]
pub(crate) fn is_alphanumeric(c: char) -> (b: bool)
    ensures
        b == unicode_alnum(c),
        (c as u32) < 0x80 ==> (b == is_ascii_alnum(c)),
{
    c.is_alphanumeric()
}

/// The upper-case form of a character (`char::to_uppercase`).
///
/// Claims that the result is what `unicode_upper` names, and that an ASCII
/// character's is the one character ASCII gives it.
#[verifier::external_body]
pub(crate) fn to_uppercase(c: char) -> (r: Vec<char>)
    ensures
        r@ == unicode_upper(c),
        ('a' <= c && c <= 'z') ==> r@ == seq![((c as u32) - 32) as char],
        ((c as u32) < 0x80 && !('a' <= c && c <= 'z')) ==> r@ == seq![c],
{
    c.to_uppercase().collect()
}

/// The number of bytes `c` takes in UTF-8.
pub open spec fn utf8_len(c: char) -> nat {
    if (c as u32) < 0x80 {
        1
    } else if (c as u32) < 0x800 {
        2
    } else if (c as u32) < 0x10000 {
        3
    } else {
        4
    }
}

/// The number of bytes `s` takes in UTF-8, which is what `str::len` counts.
pub open spec fn byte_len(s: Seq<char>) -> nat
    decreases s.len(),
{
    if s.len() == 0 {
        0
    } else {
        byte_len(s.drop_last()) + utf8_len(s.last())
    }
}

/// How many bytes a character takes in UTF-8.
pub fn char_bytes(c: char) -> (n: usize)
    ensures
        n == utf8_len(c),
{
    let u = c as u32;
    if u < 0x80 {
        1
    } else if u < 0x800 {
        2
    } else if u < 0x10000 {
        3
    } else {
        4
    }
}

/// The UTF-8 length of the concatenation is the sum of the lengths.
pub proof fn lemma_byte_len_add(a: Seq<char>, b: Seq<char>)
    ensures
        byte_len(a + b) == byte_len(a) + byte_len(b),
    decreases b.len(),
{
    if b.len() == 0 {
        assert(a + b == a);
    } else {
        lemma_byte_len_add(a, b.drop_last());
        assert((a + b).drop_last() == a + b.drop_last());
    }
}

/// A sequence is no shorter in bytes than in characters.
pub proof fn lemma_byte_len_bounds(s: Seq<char>)
    ensures
        s.len() <= byte_len(s) <= 4 * s.len(),
    decreases s.len(),
{
    if s.len() > 0 {
        lemma_byte_len_bounds(s.drop_last());
    }
}

/// Byte offsets grow strictly with the number of characters before them.
pub proof fn lemma_byte_len_take_increasing(s: Seq<char>, i: int, j: int)
    requires
        0 <= i < j <= s.len(),
    ensures
        byte_len(s.take(i)) < byte_len(s.take(j)),
{
    lemma_byte_len_add(s.take(i), s.subrange(i, j));
    assert(s.take(i) + s.subrange(i, j) =~= s.take(j));
    lemma_byte_len_bounds(s.subrange(i, j));
}

/// Whether `b` bytes into `s` falls between two characters.
pub open spec fn boundary(s: Seq<char>, b: nat) -> bool {
    exists|k: int| 0 <= k <= s.len() && byte_len(s.take(k)) == b
}

/// How many characters of `s` lie in its first `b` bytes, for a `b` that
/// falls between characters; all of them for a `b` past its end.
pub open spec fn char_index(s: Seq<char>, b: nat) -> int {
    if b >= byte_len(s) {
        s.len() as int
    } else {
        choose|k: int| 0 <= k <= s.len() && byte_len(s.take(k)) == b
    }
}

/// The character position a boundary falls at is the only one it could.
pub proof fn lemma_char_index(s: Seq<char>, b: nat, k: int)
    requires
        0 <= k <= s.len(),
        byte_len(s.take(k)) == b,
    ensures
        char_index(s, b) == k,
{
    assert(s.take(s.len() as int) =~= s);
    if b >= byte_len(s) {
        if k < s.len() {
            lemma_byte_len_take_increasing(s, k, s.len() as int);
        }
    } else {
        let c = choose|c: int| 0 <= c <= s.len() && byte_len(s.take(c)) == b;
        if c < k {
            lemma_byte_len_take_increasing(s, c, k);
        } else if k < c {
            lemma_byte_len_take_increasing(s, k, c);
        }
    }
}

/// How many times `c` occurs in `s`.
pub open spec fn count_of(s: Seq<char>, c: char) -> nat
    decreases s.len(),
{
    if s.len() == 0 {
        0
    } else {
        count_of(s.drop_last(), c) + if s.last() == c {
            1nat
        } else {
            0nat
        }
    }
}

/// The position of the last `c` in `s`, if any.
pub open spec fn last_of(s: Seq<char>, c: char) -> Option<int>
    decreases s.len(),
{
    if s.len() == 0 {
        None
    } else if s.last() == c {
        Some(s.len() - 1)
    } else {
        last_of(s.drop_last(), c)
    }
}

/// `n` copies of `c`.
pub open spec fn repeat(c: char, n: nat) -> Seq<char> {
    Seq::new(n, |i: int| c)
}

/// Appends `n` copies of `c`.
pub fn push_repeat(out: &mut String, c: char, n: usize)
    ensures
        final(out)@ == old(out)@ + repeat(c, n as nat),
{
    let mut i: usize = 0;
    while i < n
        invariant
            i <= n,
            out@ == old(out)@ + repeat(c, i as nat),
        decreases n - i,
    {
        push_char(out, c);
        assert(out@ =~= old(out)@ + repeat(c, (i + 1) as nat));
        i = i + 1;
    }
}

/// The UTF-8 length of a sequence of characters.
pub fn bytes_of(s: &[char]) -> (n: usize)
    requires
        4 * s.len() <= usize::MAX,
    ensures
        n == byte_len(s@),
{
    let mut n: usize = 0;
    let mut i: usize = 0;
    while i < s.len()
        invariant
            i <= s.len(),
            4 * s.len() <= usize::MAX,
            n == byte_len(s@.take(i as int)),
            n <= 4 * i,
        decreases s.len() - i,
    {
        proof {
            assert(s@.take(i + 1).drop_last() == s@.take(i as int));
        }
        n = n + char_bytes(s[i]);
        i = i + 1;
    }
    assert(s@.take(s.len() as int) == s@);
    n
}

// ------------------------------------------------------------------ trimming

/// How many characters at the front of `s` satisfy `keep`.
pub open spec fn lead(s: Seq<char>, keep: spec_fn(char) -> bool) -> nat
    decreases s.len(),
{
    if s.len() > 0 && keep(s[0]) {
        1 + lead(s.drop_first(), keep)
    } else {
        0
    }
}

/// How many characters at the back of `s` satisfy `keep`.
pub open spec fn trail(s: Seq<char>, keep: spec_fn(char) -> bool) -> nat
    decreases s.len(),
{
    if s.len() > 0 && keep(s.last()) {
        1 + trail(s.drop_last(), keep)
    } else {
        0
    }
}

/// `s` without the characters at its front that satisfy `drop`.
pub open spec fn trim_start_by(s: Seq<char>, drop: spec_fn(char) -> bool) -> Seq<char> {
    s.skip(lead(s, drop) as int)
}

/// `s` without the characters at its back that satisfy `drop`.
pub open spec fn trim_end_by(s: Seq<char>, drop: spec_fn(char) -> bool) -> Seq<char> {
    s.take(s.len() - trail(s, drop))
}

/// `s` without the characters at either end that satisfy `drop`.
pub open spec fn trim_by(s: Seq<char>, drop: spec_fn(char) -> bool) -> Seq<char> {
    trim_end_by(trim_start_by(s, drop), drop)
}

/// White space, as a predicate.
pub open spec fn ws() -> spec_fn(char) -> bool {
    |c: char| is_space(c)
}

/// One particular character, as a predicate.
pub open spec fn is(x: char) -> spec_fn(char) -> bool {
    |c: char| c == x
}

/// `str::trim`.
pub open spec fn trim(s: Seq<char>) -> Seq<char> {
    trim_by(s, ws())
}

/// `str::trim_start`.
pub open spec fn trim_start(s: Seq<char>) -> Seq<char> {
    trim_start_by(s, ws())
}

/// `str::trim_end`.
pub open spec fn trim_end(s: Seq<char>) -> Seq<char> {
    trim_end_by(s, ws())
}

/// What `lead` counts, characterised directly.
pub proof fn lemma_lead(s: Seq<char>, keep: spec_fn(char) -> bool)
    ensures
        lead(s, keep) <= s.len(),
        forall|j: int| 0 <= j < lead(s, keep) ==> keep(s[j]),
        lead(s, keep) < s.len() ==> !keep(s[lead(s, keep) as int]),
    decreases s.len(),
{
    if s.len() > 0 && keep(s[0]) {
        lemma_lead(s.drop_first(), keep);
        assert forall|j: int| 0 <= j < lead(s, keep) implies keep(s[j]) by {
            if j > 0 {
                assert(s[j] == s.drop_first()[j - 1]);
            }
        }
    }
}

/// What `trail` counts, characterised directly.
pub proof fn lemma_trail(s: Seq<char>, keep: spec_fn(char) -> bool)
    ensures
        trail(s, keep) <= s.len(),
        forall|j: int| s.len() - trail(s, keep) <= j < s.len() ==> keep(s[j]),
        trail(s, keep) < s.len() ==> !keep(s[s.len() - trail(s, keep) - 1]),
    decreases s.len(),
{
    if s.len() > 0 && keep(s.last()) {
        lemma_trail(s.drop_last(), keep);
        assert forall|j: int| s.len() - trail(s, keep) <= j < s.len() implies keep(s[j]) by {
            if j < s.len() - 1 {
                assert(s[j] == s.drop_last()[j]);
            }
        }
    }
}

/// `lead` is determined by the first position that fails the predicate.
pub proof fn lemma_lead_is(s: Seq<char>, keep: spec_fn(char) -> bool, n: int)
    requires
        0 <= n <= s.len(),
        forall|j: int| 0 <= j < n ==> keep(s[j]),
        n < s.len() ==> !keep(s[n]),
    ensures
        lead(s, keep) == n,
    decreases s.len(),
{
    if n > 0 {
        assert forall|j: int| 0 <= j < n - 1 implies keep(s.drop_first()[j]) by {
            assert(s.drop_first()[j] == s[j + 1]);
        }
        if n < s.len() {
            assert(s.drop_first()[n - 1] == s[n]);
        }
        lemma_lead_is(s.drop_first(), keep, n - 1);
    }
}

/// `trail` is determined by the last position that fails the predicate.
pub proof fn lemma_trail_is(s: Seq<char>, keep: spec_fn(char) -> bool, n: int)
    requires
        0 <= n <= s.len(),
        forall|j: int| s.len() - n <= j < s.len() ==> keep(s[j]),
        n < s.len() ==> !keep(s[s.len() - n - 1]),
    ensures
        trail(s, keep) == n,
    decreases s.len(),
{
    if n > 0 {
        assert forall|j: int| s.len() - 1 - (n - 1) <= j < s.len() - 1 implies keep(
            s.drop_last()[j],
        ) by {
            assert(s.drop_last()[j] == s[j]);
        }
        if n < s.len() {
            assert(s.drop_last()[s.len() - 1 - (n - 1) - 1] == s[s.len() - n - 1]);
        }
        lemma_trail_is(s.drop_last(), keep, n - 1);
    }
}

/// The characters a trim removes.
pub enum Trim {
    /// White space.
    Space,
    /// One particular character.
    Only(char),
    /// Slashes and white space, in any interleaving.
    SlashOrSpace,
    /// Carriage returns and line feeds.
    CrOrLf,
}

/// A trim class as a predicate.
pub open spec fn class(t: Trim) -> spec_fn(char) -> bool {
    match t {
        Trim::Space => ws(),
        Trim::Only(x) => is(x),
        Trim::SlashOrSpace => |c: char| c == '/' || is_space(c),
        Trim::CrOrLf => |c: char| c == '\r' || c == '\n',
    }
}

/// Whether `c` is in the class.
pub fn in_class(t: &Trim, c: char) -> (b: bool)
    ensures
        b == class(*t)(c),
{
    match t {
        Trim::Space => space(c),
        Trim::Only(x) => c == *x,
        Trim::SlashOrSpace => c == '/' || space(c),
        Trim::CrOrLf => c == '\r' || c == '\n',
    }
}

/// Where the run of the class at the front of `s[from..to]` ends.
pub fn skip_class(s: &[char], from: usize, to: usize, t: &Trim) -> (r: usize)
    requires
        from <= to <= s.len(),
    ensures
        from <= r <= to,
        r - from == lead(s@.subrange(from as int, to as int), class(*t)),
{
    let mut i = from;
    while i < to && in_class(t, s[i])
        invariant
            from <= i <= to <= s.len(),
            forall|j: int| from <= j < i ==> class(*t)(s@[j]),
        decreases to - i,
    {
        i = i + 1;
    }
    proof {
        let u = s@.subrange(from as int, to as int);
        lemma_lead_is(u, class(*t), i - from);
    }
    i
}

/// Where the run of the class at the back of `s[from..to]` begins.
pub fn skip_class_back(s: &[char], from: usize, to: usize, t: &Trim) -> (r: usize)
    requires
        from <= to <= s.len(),
    ensures
        from <= r <= to,
        to - r == trail(s@.subrange(from as int, to as int), class(*t)),
{
    let mut i = to;
    while i > from && in_class(t, s[i - 1])
        invariant
            from <= i <= to <= s.len(),
            forall|j: int| i <= j < to ==> class(*t)(s@[j]),
        decreases i - from,
    {
        i = i - 1;
    }
    proof {
        let u = s@.subrange(from as int, to as int);
        lemma_trail_is(u, class(*t), to - i);
    }
    i
}

/// The bounds of `s[from..to]` with the class trimmed from both ends.
pub fn trim_class_bounds(s: &[char], from: usize, to: usize, t: &Trim) -> (r: (usize, usize))
    requires
        from <= to <= s.len(),
    ensures
        from <= r.0 <= r.1 <= to,
        s@.subrange(r.0 as int, r.1 as int) == trim_by(
            s@.subrange(from as int, to as int),
            class(*t),
        ),
        s@.subrange(r.0 as int, to as int) == trim_start_by(
            s@.subrange(from as int, to as int),
            class(*t),
        ),
{
    let a = skip_class(s, from, to, t);
    let b = skip_class_back(s, a, to, t);
    proof {
        let u = s@.subrange(from as int, to as int);
        assert(trim_start_by(u, class(*t)) == s@.subrange(a as int, to as int));
    }
    (a, b)
}

/// Where the white space at the front of `s[from..to]` ends.
pub fn skip_space(s: &[char], from: usize, to: usize) -> (r: usize)
    requires
        from <= to <= s.len(),
    ensures
        from <= r <= to,
        r - from == lead(s@.subrange(from as int, to as int), ws()),
{
    skip_class(s, from, to, &Trim::Space)
}

/// Where the white space at the back of `s[from..to]` begins.
pub fn skip_space_back(s: &[char], from: usize, to: usize) -> (r: usize)
    requires
        from <= to <= s.len(),
    ensures
        from <= r <= to,
        to - r == trail(s@.subrange(from as int, to as int), ws()),
{
    skip_class_back(s, from, to, &Trim::Space)
}

/// The bounds of `s[from..to]` with white space trimmed from both ends.
pub fn trim_bounds(s: &[char], from: usize, to: usize) -> (r: (usize, usize))
    requires
        from <= to <= s.len(),
    ensures
        from <= r.0 <= r.1 <= to,
        s@.subrange(r.0 as int, r.1 as int) == trim(s@.subrange(from as int, to as int)),
{
    let a = skip_space(s, from, to);
    let b = skip_space_back(s, a, to);
    proof {
        let t = s@.subrange(from as int, to as int);
        assert(trim_start(t) == s@.subrange(a as int, to as int));
    }
    (a, b)
}

/// `s` with white space trimmed from both ends.
pub fn trimmed(s: &[char]) -> (r: Vec<char>)
    ensures
        r@ == trim(s@),
{
    let (a, b) = trim_bounds(s, 0, s.len());
    assert(s@.subrange(0, s.len() as int) == s@);
    copy_range(s, a, b)
}

/// Whether `s` is white space and nothing else.
pub open spec fn is_blank(s: Seq<char>) -> bool {
    forall|j: int| 0 <= j < s.len() ==> is_space(s[j])
}

/// Whether `s` is white space and nothing else.
pub fn blank(s: &[char]) -> (b: bool)
    ensures
        b == is_blank(s@),
{
    let mut i: usize = 0;
    while i < s.len()
        invariant
            i <= s.len(),
            forall|j: int| 0 <= j < i ==> is_space(s@[j]),
        decreases s.len() - i,
    {
        if !space(s[i]) {
            return false;
        }
        i = i + 1;
    }
    true
}

// ------------------------------------------------------------------ lines

/// `s` cut at every `sep`: one more piece than there are separators.
pub open spec fn split_on(s: Seq<char>, sep: char) -> Seq<Seq<char>>
    decreases s.len(),
{
    if s.len() == 0 {
        seq![Seq::empty()]
    } else {
        let rest = split_on(s.drop_last(), sep);
        if s.last() == sep {
            rest.push(Seq::empty())
        } else {
            rest.update(rest.len() - 1, rest.last().push(s.last()))
        }
    }
}

/// A split always has at least one piece.
pub proof fn lemma_split_on_len(s: Seq<char>, sep: char)
    ensures
        split_on(s, sep).len() >= 1,
    decreases s.len(),
{
    if s.len() > 0 {
        lemma_split_on_len(s.drop_last(), sep);
    }
}

/// One piece with a trailing `'\r'` taken off, which is what ends a line
/// that a CRLF terminated.
pub open spec fn strip_cr(line: Seq<char>) -> Seq<char> {
    if line.len() > 0 && line.last() == '\r' {
        line.drop_last()
    } else {
        line
    }
}

/// The lines of `s`, as `str::lines` yields them: split at `'\n'`, with a
/// `'\r'` before a `'\n'` removed, and no empty last line after a final
/// newline.
pub open spec fn lines(s: Seq<char>) -> Seq<Seq<char>> {
    let parts = split_on(s, '\n');
    let n = parts.len();
    let kept = if parts.last().len() == 0 {
        (n - 1) as nat
    } else {
        n
    };
    Seq::new(kept, |i: int| if i < n - 1 { strip_cr(parts[i]) } else { parts[i] })
}

proof fn lemma_split_on_size(s: Seq<char>, sep: char)
    ensures
        split_on(s, sep).len() >= 1,
        split_on(s, sep).len() + split_on(s, sep).last().len() <= s.len() + 1,
    decreases s.len(),
{
    if s.len() > 0 {
        lemma_split_on_size(s.drop_last(), sep);
    }
}

/// No piece of a split is longer than the text.
pub proof fn lemma_split_short(s: Seq<char>, sep: char)
    ensures
        forall|j: int| 0 <= j < split_on(s, sep).len() ==> #[trigger] split_on(s, sep)[j].len() <= s.len(),
    decreases s.len(),
{
    if s.len() > 0 {
        lemma_split_short(s.drop_last(), sep);
        lemma_split_on_len(s.drop_last(), sep);
        let rest = split_on(s.drop_last(), sep);
        assert forall|j: int| 0 <= j < split_on(s, sep).len() implies #[trigger] split_on(s, sep)[j].len() <= s.len() by {
            if j < rest.len() {
                assert(rest[j].len() <= s.drop_last().len());
            }
        }
    }
}

/// No line of a text is longer than the text.
pub proof fn lemma_line_short(s: Seq<char>, i: int)
    requires
        0 <= i < lines(s).len(),
    ensures
        lines(s)[i].len() <= s.len(),
{
    lemma_split_short(s, '\n');
    lemma_split_on_len(s, '\n');
}

/// A text has no more lines than characters.
pub proof fn lemma_lines_len(s: Seq<char>)
    ensures
        lines(s).len() <= s.len(),
{
    lemma_split_on_size(s, '\n');
}

/// The lines of a text.
pub fn lines_of(s: &[char]) -> (r: Vec<Vec<char>>)
    ensures
        r@.len() == lines(s@).len(),
        forall|i: int| 0 <= i < r@.len() ==> #[trigger] r@[i]@ == lines(s@)[i],
{
    let mut done: Vec<Vec<char>> = Vec::new();
    let mut current: Vec<char> = Vec::new();
    let mut i: usize = 0;
    proof {
        lemma_split_on_len(s@.take(0), '\n');
        assert(s@.take(0) == Seq::<char>::empty());
    }
    while i < s.len()
        invariant
            i <= s.len(),
            split_on(s@.take(i as int), '\n').len() == done@.len() + 1,
            forall|j: int|
                0 <= j < done@.len() ==> #[trigger] done@[j]@ == strip_cr(
                    split_on(s@.take(i as int), '\n')[j],
                ),
            current@ == split_on(s@.take(i as int), '\n').last(),
        decreases s.len() - i,
    {
        let c = s[i];
        proof {
            assert(s@.take(i + 1).drop_last() == s@.take(i as int));
            assert(s@.take(i + 1).last() == c);
        }
        if c == '\n' {
            let mut line = current;
            if line.len() > 0 && line[line.len() - 1] == '\r' {
                line.pop();
            }
            done.push(line);
            current = Vec::new();
        } else {
            current.push(c);
        }
        i = i + 1;
    }
    assert(s@.take(s.len() as int) == s@);
    if current.len() > 0 {
        done.push(current);
    }
    done
}

/// A text cut at every `sep` (`str::split` with a `char`).
pub fn split_chars(s: &[char], sep: char) -> (r: Vec<Vec<char>>)
    ensures
        r@.len() == split_on(s@, sep).len(),
        forall|i: int| 0 <= i < r@.len() ==> #[trigger] r@[i]@ == split_on(s@, sep)[i],
{
    let mut done: Vec<Vec<char>> = Vec::new();
    let mut current: Vec<char> = Vec::new();
    let mut i: usize = 0;
    proof {
        assert(s@.take(0) == Seq::<char>::empty());
    }
    while i < s.len()
        invariant
            i <= s.len(),
            split_on(s@.take(i as int), sep).len() == done@.len() + 1,
            forall|j: int|
                0 <= j < done@.len() ==> #[trigger] done@[j]@ == split_on(s@.take(i as int), sep)[j],
            current@ == split_on(s@.take(i as int), sep).last(),
        decreases s.len() - i,
    {
        let c = s[i];
        proof {
            assert(s@.take(i + 1).drop_last() == s@.take(i as int));
            assert(s@.take(i + 1).last() == c);
            lemma_split_on_len(s@.take(i as int), sep);
        }
        if c == sep {
            done.push(current);
            current = Vec::new();
        } else {
            current.push(c);
        }
        i = i + 1;
    }
    assert(s@.take(s.len() as int) == s@);
    done.push(current);
    done
}

/// A text with no `'\r'` in it has the same lines as the same text with
/// every `'\n'` written as `"\r\n"`.
pub open spec fn crlf(s: Seq<char>) -> Seq<char>
    decreases s.len(),
{
    if s.len() == 0 {
        Seq::empty()
    } else if s.last() == '\n' {
        crlf(s.drop_last()) + seq!['\r', '\n']
    } else {
        crlf(s.drop_last()).push(s.last())
    }
}

proof fn lemma_crlf_split(s: Seq<char>)
    requires
        !s.contains('\r'),
    ensures
        split_on(crlf(s), '\n').len() == split_on(s, '\n').len(),
        split_on(crlf(s), '\n').last() == split_on(s, '\n').last(),
        forall|j: int|
            0 <= j < split_on(s, '\n').len() - 1 ==> split_on(crlf(s), '\n')[j] == split_on(
                s,
                '\n',
            )[j].push('\r'),
    decreases s.len(),
{
    if s.len() > 0 {
        let p = s.drop_last();
        assert(!p.contains('\r')) by {
            if p.contains('\r') {
                let k = choose|k: int| 0 <= k < p.len() && p[k] == '\r';
                assert(s[k] == '\r');
            }
        }
        lemma_crlf_split(p);
        lemma_split_on_len(p, '\n');
        lemma_split_on_len(crlf(p), '\n');
        let a = split_on(p, '\n');
        let b = split_on(crlf(p), '\n');
        if s.last() == '\n' {
            let v = crlf(p).push('\r');
            let w = crlf(p) + seq!['\r', '\n'];
            assert(w.drop_last() == v);
            assert(w.last() == '\n');
            assert(v.drop_last() == crlf(p));
            assert(v.last() == '\r');
            let b1 = b.update(b.len() - 1, b.last().push('\r'));
            assert(split_on(v, '\n') == b1);
            assert(split_on(w, '\n') == b1.push(Seq::empty()));
            assert(split_on(s, '\n') == a.push(Seq::empty()));
            assert(crlf(s) == w);
            assert forall|j: int| 0 <= j < a.len() implies b1[j] == a[j].push('\r') by {
                if j < a.len() - 1 {
                } else {
                }
            }
        } else {
            assert(s.last() != '\r');
            assert(crlf(s) == crlf(p).push(s.last()));
            assert(crlf(s).drop_last() == crlf(p));
            assert(crlf(s).last() == s.last());
            assert(split_on(crlf(s), '\n') == b.update(b.len() - 1, b.last().push(s.last())));
            assert(split_on(s, '\n') == a.update(a.len() - 1, a.last().push(s.last())));
        }
    }
}

/// Line endings do not change a text's lines, for a text with no stray
/// carriage returns.
pub proof fn lemma_lines_crlf(s: Seq<char>)
    requires
        !s.contains('\r'),
    ensures
        lines(crlf(s)) == lines(s),
{
    lemma_crlf_split(s);
    lemma_split_on_len(s, '\n');
    let a = split_on(s, '\n');
    let b = split_on(crlf(s), '\n');
    assert forall|j: int| 0 <= j < a.len() - 1 implies strip_cr(b[j]) == strip_cr(a[j]) by {
        assert(b[j] == a[j].push('\r'));
        assert(b[j].drop_last() == a[j]);
        lemma_split_piece_has_no(s, '\n', '\r', j);
    }
    assert(lines(crlf(s)) =~= lines(s));
}

/// A piece of a split contains only characters of the text it came from.
proof fn lemma_split_piece_has_no(s: Seq<char>, sep: char, x: char, j: int)
    requires
        !s.contains(x),
        0 <= j < split_on(s, sep).len(),
    ensures
        !split_on(s, sep)[j].contains(x),
        split_on(s, sep)[j].len() == 0 || split_on(s, sep)[j].last() != x,
    decreases s.len(),
{
    lemma_split_on_len(s, sep);
    if s.len() > 0 {
        let p = s.drop_last();
        assert(!p.contains(x)) by {
            if p.contains(x) {
                let k = choose|k: int| 0 <= k < p.len() && p[k] == x;
                assert(s[k] == x);
            }
        }
        lemma_split_on_len(p, sep);
        let rest = split_on(p, sep);
        if s.last() == sep {
            if j < rest.len() {
                lemma_split_piece_has_no(p, sep, x, j);
            }
        } else {
            if j < rest.len() - 1 {
                lemma_split_piece_has_no(p, sep, x, j);
            } else {
                lemma_split_piece_has_no(p, sep, x, rest.len() - 1);
                let last = rest.last();
                assert(s.last() != x);
                assert(!last.push(s.last()).contains(x)) by {
                    if last.push(s.last()).contains(x) {
                        let k = choose|k: int|
                            0 <= k < last.push(s.last()).len() && last.push(s.last())[k] == x;
                        if k < last.len() {
                            assert(last[k] == x);
                        }
                    }
                }
            }
        }
    }
}

// ------------------------------------------------------------------ joining

/// The values of strings, as plain texts.
pub open spec fn texts(v: Seq<String>) -> Seq<Seq<char>> {
    v.map_values(|s: String| s@)
}

/// Pieces one after another.
pub open spec fn concat(parts: Seq<Seq<char>>) -> Seq<char>
    decreases parts.len(),
{
    if parts.len() == 0 {
        Seq::empty()
    } else {
        concat(parts.drop_last()) + parts.last()
    }
}

/// What `{:?}` writes for a string: the text in double quotes, with the
/// characters Rust's `char::escape_debug` escapes escaped.
pub uninterp spec fn str_debug(s: Seq<char>) -> Seq<char>;

/// A string as `{:?}` formats it.
///
/// Claims only that the result is what `str_debug` names for `s`: Debug
/// formatting of a `str` depends on nothing but the text.
#[verifier::external_body]
pub(crate) fn debug_quoted(s: &str) -> (r: String)
    ensures
        r@ == str_debug(s@),
{
    format!("{s:?}")
}

/// Pieces joined with `sep` between them (`slice::join`).
pub open spec fn join(parts: Seq<Seq<char>>, sep: Seq<char>) -> Seq<char>
    decreases parts.len(),
{
    if parts.len() == 0 {
        Seq::empty()
    } else if parts.len() == 1 {
        parts[0]
    } else {
        join(parts.drop_last(), sep) + sep + parts.last()
    }
}

/// Pieces joined with `sep` between them.
pub fn join_with(parts: &Vec<Vec<char>>, sep: &[char]) -> (r: Vec<char>)
    ensures
        r@ == join(parts@.map_values(|l: Vec<char>| l@), sep@),
{
    let ghost views = parts@.map_values(|l: Vec<char>| l@);
    let mut r: Vec<char> = Vec::new();
    let mut i: usize = 0;
    while i < parts.len()
        invariant
            i <= parts.len(),
            views == parts@.map_values(|l: Vec<char>| l@),
            r@ == join(views.take(i as int), sep@),
        decreases parts.len() - i,
    {
        proof {
            assert(views.take(i + 1).drop_last() == views.take(i as int));
        }
        if i > 0 {
            extend_vec(&mut r, sep);
        }
        extend_vec(&mut r, parts[i].as_slice());
        i = i + 1;
    }
    assert(views.take(parts.len() as int) == views);
    r
}

// ------------------------------------------------------------------ replacing

/// `s` with every occurrence of `p` replaced by `w`, scanning from the left
/// and never matching inside a replacement (`str::replace`).
pub open spec fn replaced(s: Seq<char>, p: Seq<char>, w: Seq<char>) -> Seq<char>
    decreases s.len(),
{
    if s.len() == 0 || p.len() == 0 {
        s
    } else if starts_with(s, p) {
        w + replaced(s.skip(p.len() as int), p, w)
    } else {
        seq![s[0]] + replaced(s.skip(1), p, w)
    }
}

/// `s` with every occurrence of the non-empty `p` replaced by `w`.
pub fn replace_all(s: &str, p: &str, w: &str) -> (r: String)
    requires
        p@.len() > 0,
    ensures
        r@ == replaced(s@, p@, w@),
{
    let cs = chars_of(s);
    let ps = chars_of(p);
    let ws = chars_of(w);
    let mut out = String::new();
    let mut i: usize = 0;
    assert(cs@.skip(0) =~= cs@);
    assert(out@ + replaced(cs@, ps@, ws@) =~= replaced(cs@, ps@, ws@));
    while i < cs.len()
        invariant
            i <= cs.len(),
            cs@ == s@,
            ps@ == p@,
            ws@ == w@,
            ps.len() > 0,
            out@ + replaced(cs@.skip(i as int), ps@, ws@) == replaced(s@, p@, w@),
        decreases cs.len() - i,
    {
        let ghost rest = cs@.skip(i as int);
        let ghost before = out@;
        if matches_at(cs.as_slice(), ps.as_slice(), i) {
            assert(rest.take(ps.len() as int) =~= cs@.subrange(i as int, i + ps.len()));
            assert(rest.skip(ps.len() as int) =~= cs@.skip(i + ps.len()));
            push_chars(&mut out, ws.as_slice());
            assert(out@ + replaced(cs@.skip(i + ps.len()), ps@, ws@) =~= before + replaced(rest, ps@, ws@));
            i = i + ps.len();
        } else {
            proof {
                if starts_with(rest, ps@) {
                    assert(rest.take(ps.len() as int) =~= cs@.subrange(i as int, i + ps.len()));
                }
            }
            assert(rest.skip(1) =~= cs@.skip(i + 1));
            push_char(&mut out, cs[i]);
            assert(out@ + replaced(cs@.skip(i + 1), ps@, ws@) =~= before + replaced(rest, ps@, ws@));
            i = i + 1;
        }
    }
    assert(cs@.skip(cs.len() as int) =~= Seq::<char>::empty());
    assert(out@ + Seq::<char>::empty() =~= out@);
    out
}

// ------------------------------------------------------------------ mapping

/// `s` with each character replaced by what `f` makes of it.
pub open spec fn expand(s: Seq<char>, f: spec_fn(char) -> Seq<char>) -> Seq<char>
    decreases s.len(),
{
    if s.len() == 0 {
        Seq::empty()
    } else {
        expand(s.drop_last(), f) + f(s.last())
    }
}

/// Expanding a concatenation expands each part.
pub proof fn lemma_expand_add(a: Seq<char>, b: Seq<char>, f: spec_fn(char) -> Seq<char>)
    ensures
        expand(a + b, f) == expand(a, f) + expand(b, f),
    decreases b.len(),
{
    if b.len() == 0 {
        assert(a + b =~= a);
    } else {
        lemma_expand_add(a, b.drop_last(), f);
        assert((a + b).drop_last() =~= a + b.drop_last());
    }
}

// ------------------------------------------------------------------ numbers

/// The character for a decimal digit.
pub open spec fn digit_char(d: nat) -> char {
    if d == 0 {
        '0'
    } else if d == 1 {
        '1'
    } else if d == 2 {
        '2'
    } else if d == 3 {
        '3'
    } else if d == 4 {
        '4'
    } else if d == 5 {
        '5'
    } else if d == 6 {
        '6'
    } else if d == 7 {
        '7'
    } else if d == 8 {
        '8'
    } else {
        '9'
    }
}

/// `n` in decimal, as `{}` formats an unsigned integer.
pub open spec fn digits(n: nat) -> Seq<char>
    decreases n,
{
    if n < 10 {
        seq![digit_char(n)]
    } else {
        digits(n / 10).push(digit_char(n % 10))
    }
}

/// `n` in decimal, with zeros in front to make it at least `width` long, as
/// `{:0width$}` formats it.
pub open spec fn padded(n: nat, width: nat) -> Seq<char> {
    if digits(n).len() < width {
        Seq::new((width - digits(n).len()) as nat, |i: int| '0') + digits(n)
    } else {
        digits(n)
    }
}

/// The character for a decimal digit.
pub fn digit(d: u64) -> (c: char)
    requires
        d < 10,
    ensures
        c == digit_char(d as nat),
{
    if d == 0 {
        '0'
    } else if d == 1 {
        '1'
    } else if d == 2 {
        '2'
    } else if d == 3 {
        '3'
    } else if d == 4 {
        '4'
    } else if d == 5 {
        '5'
    } else if d == 6 {
        '6'
    } else if d == 7 {
        '7'
    } else if d == 8 {
        '8'
    } else {
        '9'
    }
}

/// Appends `n` in decimal.
pub fn push_decimal(out: &mut String, n: u64)
    ensures
        final(out)@ == old(out)@ + digits(n as nat),
    decreases n,
{
    if n >= 10 {
        push_decimal(out, n / 10);
    }
    push_char(out, digit(n % 10));
    proof {
        if n < 10 {
            assert(n % 10 == n);
        }
    }
}

/// How many digits `n` has in decimal.
pub proof fn lemma_digits_len(n: nat)
    ensures
        digits(n).len() >= 1,
        n < 10 ==> digits(n).len() == 1,
        10 <= n < 100 ==> digits(n).len() == 2,
        100 <= n < 1000 ==> digits(n).len() == 3,
        1000 <= n < 10000 ==> digits(n).len() == 4,
    decreases n,
{
    if n >= 10 {
        lemma_digits_len(n / 10);
    }
}

/// Appends `n` in decimal, padded with zeros to `width` characters.
pub fn push_padded(out: &mut String, n: u64, width: usize)
    ensures
        final(out)@ == old(out)@ + padded(n as nat, width as nat),
{
    let mut d = String::new();
    push_decimal(&mut d, n);
    let ghost ds = digits(n as nat);
    let chars = chars_of(d.as_str());
    if chars.len() < width {
        let k = width - chars.len();
        let mut i: usize = 0;
        while i < k
            invariant
                i <= k,
                out@ == old(out)@ + Seq::new(i as nat, |j: int| '0'),
            decreases k - i,
        {
            push_char(out, '0');
            assert(out@ =~= old(out)@ + Seq::new((i + 1) as nat, |j: int| '0'));
            i = i + 1;
        }
    }
    let ghost mid = out@;
    push_chars(out, chars.as_slice());
    assert(out@ =~= old(out)@ + padded(n as nat, width as nat));
}

// ------------------------------------------------------------------ ordering

/// `a` sorts before `b`: at the first character where they differ, `a`'s is
/// smaller, or `a` is a proper prefix of `b`.  This is the order of `str`,
/// since UTF-8 keeps the order of code points.
pub open spec fn before(a: Seq<char>, b: Seq<char>) -> bool
    decreases a.len(),
{
    if a.len() == 0 {
        b.len() > 0
    } else if b.len() == 0 {
        false
    } else if a[0] != b[0] {
        a[0] < b[0]
    } else {
        before(a.drop_first(), b.drop_first())
    }
}

/// Nothing sorts before itself.
pub proof fn lemma_before_irreflexive(a: Seq<char>)
    ensures
        !before(a, a),
    decreases a.len(),
{
    if a.len() > 0 {
        lemma_before_irreflexive(a.drop_first());
    }
}

/// The order is transitive.
pub proof fn lemma_before_transitive(a: Seq<char>, b: Seq<char>, c: Seq<char>)
    requires
        before(a, b),
        before(b, c),
    ensures
        before(a, c),
    decreases a.len(),
{
    if a.len() > 0 && b.len() > 0 && c.len() > 0 && a[0] == b[0] && b[0] == c[0] {
        lemma_before_transitive(a.drop_first(), b.drop_first(), c.drop_first());
    }
}

/// Any two texts are equal or ordered one way round.
pub proof fn lemma_before_total(a: Seq<char>, b: Seq<char>)
    ensures
        a == b || before(a, b) || before(b, a),
    decreases a.len(),
{
    if a.len() > 0 && b.len() > 0 && a[0] == b[0] {
        lemma_before_total(a.drop_first(), b.drop_first());
        if a.drop_first() == b.drop_first() {
            assert(a =~= seq![a[0]] + a.drop_first());
            assert(b =~= seq![b[0]] + b.drop_first());
        }
    }
}

/// The order is asymmetric.
pub proof fn lemma_before_asymmetric(a: Seq<char>, b: Seq<char>)
    requires
        before(a, b),
    ensures
        !before(b, a),
{
    if before(b, a) {
        lemma_before_transitive(a, b, a);
        lemma_before_irreflexive(a);
    }
}

/// Dropping a common prefix does not change the order.
proof fn lemma_before_skip(a: Seq<char>, b: Seq<char>, i: int)
    requires
        0 <= i <= a.len(),
        i <= b.len(),
        a.take(i) == b.take(i),
    ensures
        before(a, b) == before(a.skip(i), b.skip(i)),
    decreases i,
{
    if i > 0 {
        assert(a[0] == a.take(i)[0]);
        assert(b[0] == b.take(i)[0]);
        assert(a.drop_first().take(i - 1) =~= a.take(i).drop_first());
        assert(b.drop_first().take(i - 1) =~= b.take(i).drop_first());
        lemma_before_skip(a.drop_first(), b.drop_first(), i - 1);
        assert(a.drop_first().skip(i - 1) =~= a.skip(i));
        assert(b.drop_first().skip(i - 1) =~= b.skip(i));
    } else {
        assert(a.skip(0) =~= a);
        assert(b.skip(0) =~= b);
    }
}

/// `a` sorts no later than `b`.
pub open spec fn text_leq(a: Seq<char>, b: Seq<char>) -> bool {
    a == b || before(a, b)
}

/// Pairs of texts in the order of `(String, String)`: by the first, then by
/// the second.
pub open spec fn pair_leq(x: (Seq<char>, Seq<char>), y: (Seq<char>, Seq<char>)) -> bool {
    before(x.0, y.0) || (x.0 == y.0 && text_leq(x.1, y.1))
}

/// The order on pairs is a total order.
pub proof fn lemma_pair_leq_total()
    ensures
        vstd::relations::total_ordering(|x: (Seq<char>, Seq<char>), y: (Seq<char>, Seq<char>)| pair_leq(x, y)),
{
    let r = |x: (Seq<char>, Seq<char>), y: (Seq<char>, Seq<char>)| pair_leq(x, y);
    assert forall|x: (Seq<char>, Seq<char>), y: (Seq<char>, Seq<char>)| #[trigger] r(x, y) && #[trigger] r(y, x) implies x == y by {
        if before(x.0, y.0) {
            lemma_before_asymmetric(x.0, y.0);
        }
        if before(y.0, x.0) {
            lemma_before_asymmetric(y.0, x.0);
        }
        if before(x.1, y.1) {
            lemma_before_asymmetric(x.1, y.1);
        }
    }
    assert forall|x: (Seq<char>, Seq<char>), y: (Seq<char>, Seq<char>), z: (Seq<char>, Seq<char>)| #[trigger] r(x, y) && #[trigger] r(y, z) implies r(x, z) by {
        lemma_pair_leq_transitive(x, y, z);
    }
    assert forall|x: (Seq<char>, Seq<char>), y: (Seq<char>, Seq<char>)| #[trigger] r(x, y) || #[trigger] r(y, x) by {
        lemma_before_total(x.0, y.0);
        lemma_before_total(x.1, y.1);
    }
}

/// The order on pairs is transitive.
pub proof fn lemma_pair_leq_transitive(
    x: (Seq<char>, Seq<char>),
    y: (Seq<char>, Seq<char>),
    z: (Seq<char>, Seq<char>),
)
    requires
        pair_leq(x, y),
        pair_leq(y, z),
    ensures
        pair_leq(x, z),
{
    if before(x.0, y.0) && before(y.0, z.0) {
        lemma_before_transitive(x.0, y.0, z.0);
    }
    if before(x.1, y.1) && before(y.1, z.1) {
        lemma_before_transitive(x.1, y.1, z.1);
    }
}

/// The plain values of string pairs.
pub open spec fn pair_views(v: Seq<(String, String)>) -> Seq<(Seq<char>, Seq<char>)> {
    v.map_values(|p: (String, String)| (p.0@, p.1@))
}

/// Whether one pair sorts no later than another.
fn pair_no_later(a: &(String, String), b: &(String, String)) -> (r: bool)
    ensures
        r == pair_leq((a.0@, a.1@), (b.0@, b.1@)),
{
    let a0 = chars_of(a.0.as_str());
    let b0 = chars_of(b.0.as_str());
    proof {
        lemma_before_irreflexive(a0@);
    }
    match rank(a0.as_slice(), b0.as_slice()) {
        Rank::Below => true,
        Rank::Above => {
            proof {
                lemma_before_asymmetric(b0@, a0@);
            }
            false
        },
        Rank::Same => {
            let a1 = chars_of(a.1.as_str());
            let b1 = chars_of(b.1.as_str());
            proof {
                lemma_before_irreflexive(a1@);
            }
            match rank(a1.as_slice(), b1.as_slice()) {
                Rank::Above => {
                    proof {
                        lemma_before_asymmetric(b1@, a1@);
                    }
                    false
                },
                _ => true,
            }
        },
    }
}

/// String pairs in the order of `(String, String)`, equal pairs kept.
pub fn sort_pairs(v: Vec<(String, String)>) -> (r: Vec<(String, String)>)
    ensures
        pair_views(r@) == pair_views(v@).sort_by(|x: (Seq<char>, Seq<char>), y: (Seq<char>, Seq<char>)| pair_leq(x, y)),
{
    let ghost leq = |x: (Seq<char>, Seq<char>), y: (Seq<char>, Seq<char>)| pair_leq(x, y);
    let ghost input = pair_views(v@);
    let mut out: Vec<(String, String)> = Vec::new();
    let rest = v;
    proof {
        lemma_pair_leq_total();
        assert(input.take(0).to_multiset() =~= pair_views(out@).to_multiset()) by {
            assert(input.take(0) =~= pair_views(out@));
        }
    }
    let n = rest.len();
    let mut k: usize = 0;
    while k < n
        invariant
            k <= n == input.len(),
            rest@.len() == n,
            pair_views(rest@) == input,
            vstd::relations::sorted_by(pair_views(out@), leq),
            pair_views(out@).to_multiset() == input.take(k as int).to_multiset(),
            leq == (|x: (Seq<char>, Seq<char>), y: (Seq<char>, Seq<char>)| pair_leq(x, y)),
            vstd::relations::total_ordering(leq),
        decreases n - k,
    {
        let item = (rest[k].0.clone(), rest[k].1.clone());
        let ghost iv = (item.0@, item.1@);
        assert(iv == input[k as int]);
        let mut i: usize = 0;
        while i < out.len() && pair_no_later(&out[i], &item)
            invariant
                i <= out.len(),
                iv == (item.0@, item.1@),
                forall|j: int| 0 <= j < i ==> pair_leq(#[trigger] pair_views(out@)[j], iv),
            decreases out.len() - i,
        {
            i = i + 1;
        }
        let ghost old_views = pair_views(out@);
        proof {
            if i < out.len() {
                lemma_before_total(old_views[i as int].0, iv.0);
                lemma_before_total(old_views[i as int].1, iv.1);
            }
        }
        out.insert(i, item);
        proof {
            let nv = pair_views(out@);
            assert(nv =~= old_views.insert(i as int, iv));
            vstd::seq_lib::to_multiset_insert(old_views, i as int, iv);
            assert(input.take(k + 1) =~= input.take(k as int).push(iv));
            vstd::seq_lib::to_multiset_build(input.take(k as int), iv);
            assert(nv.to_multiset() =~= input.take(k + 1).to_multiset()) by {
                broadcast use vstd::multiset::group_multiset_axioms;
            }
            assert forall|p: int, q: int| 0 <= p < q < nv.len() implies #[trigger] leq(nv[p], nv[q]) by {
                if q < i {
                    assert(nv[p] == old_views[p] && nv[q] == old_views[q]);
                } else if q == i {
                    assert(nv[p] == old_views[p]);
                } else if p < i {
                    assert(nv[p] == old_views[p] && nv[q] == old_views[q - 1]);
                    assert(pair_leq(iv, old_views[i as int]));
                    if q - 1 > i {
                        assert(leq(old_views[i as int], old_views[q - 1]));
                        lemma_pair_leq_transitive(iv, old_views[i as int], old_views[q - 1]);
                    }
                    lemma_pair_leq_transitive(old_views[p], iv, old_views[q - 1]);
                } else if p == i {
                    assert(nv[q] == old_views[q - 1]);
                    if q - 1 > i {
                        assert(leq(old_views[i as int], old_views[q - 1]));
                        lemma_pair_leq_transitive(iv, old_views[i as int], old_views[q - 1]);
                    }
                } else {
                    assert(nv[p] == old_views[p - 1] && nv[q] == old_views[q - 1]);
                    assert(leq(old_views[p - 1], old_views[q - 1]));
                }
            }
        }
        k = k + 1;
    }
    proof {
        assert(input.take(n as int) =~= input);
        input.lemma_sort_by_ensures(leq);
        vstd::seq_lib::lemma_sorted_unique(pair_views(out@), input.sort_by(leq), leq);
    }
    out
}

/// The order on texts is a total order.
pub proof fn lemma_text_leq_total()
    ensures
        vstd::relations::total_ordering(|a: Seq<char>, b: Seq<char>| text_leq(a, b)),
{
    let r = |a: Seq<char>, b: Seq<char>| text_leq(a, b);
    assert forall|x: Seq<char>, y: Seq<char>| #[trigger] r(x, y) && #[trigger] r(y, x) implies x == y by {
        if before(x, y) {
            lemma_before_asymmetric(x, y);
        }
    }
    assert forall|x: Seq<char>, y: Seq<char>, z: Seq<char>| #[trigger] r(x, y) && #[trigger] r(y, z) implies r(x, z) by {
        if before(x, y) && before(y, z) {
            lemma_before_transitive(x, y, z);
        }
    }
    assert forall|x: Seq<char>, y: Seq<char>| #[trigger] r(x, y) || #[trigger] r(y, x) by {
        lemma_before_total(x, y);
    }
}

/// Strings in the order of `String`, equal ones kept.
pub fn sort_texts(v: Vec<String>) -> (r: Vec<String>)
    ensures
        texts(r@) == texts(v@).sort_by(|a: Seq<char>, b: Seq<char>| text_leq(a, b)),
{
    let ghost leq = |a: Seq<char>, b: Seq<char>| text_leq(a, b);
    let ghost input = texts(v@);
    let mut out: Vec<String> = Vec::new();
    proof {
        lemma_text_leq_total();
        assert(input.take(0) =~= texts(out@));
    }
    let n = v.len();
    let mut k: usize = 0;
    while k < n
        invariant
            k <= n == input.len(),
            v@.len() == n,
            texts(v@) == input,
            vstd::relations::sorted_by(texts(out@), leq),
            texts(out@).to_multiset() == input.take(k as int).to_multiset(),
            leq == (|a: Seq<char>, b: Seq<char>| text_leq(a, b)),
            vstd::relations::total_ordering(leq),
        decreases n - k,
    {
        let item = v[k].clone();
        let ghost iv = item@;
        assert(iv == input[k as int]);
        let mut i: usize = 0;
        loop
            invariant
                i <= out.len(),
                iv == item@,
                forall|j: int| 0 <= j < i ==> text_leq(#[trigger] texts(out@)[j], iv),
            ensures
                i <= out.len(),
                forall|j: int| 0 <= j < i ==> text_leq(#[trigger] texts(out@)[j], iv),
                i < out.len() ==> before(iv, texts(out@)[i as int]),
            decreases out.len() - i,
        {
            if i == out.len() {
                break;
            }
            let a = chars_of(out[i].as_str());
            let b = chars_of(item.as_str());
            match rank(a.as_slice(), b.as_slice()) {
                Rank::Above => {
                    break;
                },
                _ => {
                    i = i + 1;
                },
            }
        }
        let ghost old_views = texts(out@);
        out.insert(i, item);
        proof {
            let nv = texts(out@);
            assert(nv =~= old_views.insert(i as int, iv));
            vstd::seq_lib::to_multiset_insert(old_views, i as int, iv);
            assert(input.take(k + 1) =~= input.take(k as int).push(iv));
            vstd::seq_lib::to_multiset_build(input.take(k as int), iv);
            assert(nv.to_multiset() =~= input.take(k + 1).to_multiset()) by {
                broadcast use vstd::multiset::group_multiset_axioms;
            }
            assert forall|p: int, q: int| 0 <= p < q < nv.len() implies #[trigger] leq(nv[p], nv[q]) by {
                if q < i {
                    assert(nv[p] == old_views[p] && nv[q] == old_views[q]);
                } else if q == i {
                    assert(nv[p] == old_views[p]);
                } else if p < i {
                    assert(nv[p] == old_views[p] && nv[q] == old_views[q - 1]);
                    assert(leq(iv, old_views[i as int]));
                    if q - 1 > i {
                        assert(leq(old_views[i as int], old_views[q - 1]));
                    }
                    assert(leq(iv, old_views[q - 1]));
                    assert(leq(old_views[p], iv));
                } else if p == i {
                    assert(nv[q] == old_views[q - 1]);
                    assert(leq(iv, old_views[i as int]));
                    if q - 1 > i {
                        assert(leq(old_views[i as int], old_views[q - 1]));
                    }
                } else {
                    assert(nv[p] == old_views[p - 1] && nv[q] == old_views[q - 1]);
                    assert(leq(old_views[p - 1], old_views[q - 1]));
                }
            }
        }
        k = k + 1;
    }
    proof {
        assert(input.take(n as int) =~= input);
        input.lemma_sort_by_ensures(leq);
        vstd::seq_lib::lemma_sorted_unique(texts(out@), input.sort_by(leq), leq);
    }
    out
}

/// Each text sorts before every text after it: sorted, and none twice.
pub open spec fn strictly_sorted(v: Seq<Seq<char>>) -> bool {
    forall|i: int, j: int| 0 <= i < j < v.len() ==> before(#[trigger] v[i], #[trigger] v[j])
}

/// Strings as a set: sorted, each once, and holding exactly the texts of
/// `v`.
pub fn sorted_set(v: &[String]) -> (r: Vec<String>)
    ensures
        strictly_sorted(texts(r@)),
        forall|x: Seq<char>| texts(r@).contains(x) <==> texts(v@).contains(x),
{
    let mut out: Vec<String> = Vec::new();
    let mut k: usize = 0;
    while k < v.len()
        invariant
            k <= v.len(),
            strictly_sorted(texts(out@)),
            forall|x: Seq<char>| texts(out@).contains(x) <==> texts(v@).take(k as int).contains(x),
        decreases v.len() - k,
    {
        let item = v[k].clone();
        let ghost iv = item@;
        let ghost old_views = texts(out@);
        let b = chars_of(item.as_str());
        let mut i: usize = 0;
        let mut present = false;
        loop
            invariant_except_break
                !present,
            invariant
                i <= out.len(),
                old_views == texts(out@),
                b@ == iv,
                forall|j: int| 0 <= j < i ==> before(#[trigger] old_views[j], iv),
            ensures
                i <= out.len(),
                forall|j: int| 0 <= j < i ==> before(#[trigger] old_views[j], iv),
                present ==> i < out.len() && old_views[i as int] == iv,
                !present ==> (i < out.len() ==> before(iv, old_views[i as int])),
            decreases out.len() - i,
        {
            if i == out.len() {
                break;
            }
            let a = chars_of(out[i].as_str());
            match rank(a.as_slice(), b.as_slice()) {
                Rank::Below => {
                    i = i + 1;
                },
                Rank::Same => {
                    present = true;
                    break;
                },
                Rank::Above => {
                    break;
                },
            }
        }
        proof {
            assert(texts(v@).take(k + 1) =~= texts(v@).take(k as int).push(iv));
        }
        if !present {
            out.insert(i, item);
            proof {
                let n = texts(out@);
                assert(n =~= old_views.insert(i as int, iv));
                assert forall|p: int, q: int| 0 <= p < q < n.len() implies before(#[trigger] n[p], #[trigger] n[q]) by {
                    if q < i {
                        assert(n[p] == old_views[p] && n[q] == old_views[q]);
                    } else if q == i {
                        assert(n[p] == old_views[p]);
                    } else if p < i {
                        assert(n[p] == old_views[p] && n[q] == old_views[q - 1]);
                        lemma_before_transitive(old_views[p], iv, old_views[i as int]);
                        if q - 1 > i {
                            lemma_before_transitive(old_views[p], old_views[i as int], old_views[q - 1]);
                        }
                    } else if p == i {
                        assert(n[q] == old_views[q - 1]);
                        if q - 1 > i {
                            lemma_before_transitive(iv, old_views[i as int], old_views[q - 1]);
                        }
                    } else {
                        assert(n[p] == old_views[p - 1] && n[q] == old_views[q - 1]);
                    }
                }
                assert forall|x: Seq<char>| n.contains(x) <==> (old_views.contains(x) || x == iv) by {
                    if n.contains(x) {
                        let j = choose|j: int| 0 <= j < n.len() && n[j] == x;
                        if j < i {
                            assert(old_views[j] == x);
                        } else if j > i {
                            assert(old_views[j - 1] == x);
                        }
                    }
                    if old_views.contains(x) {
                        let j = choose|j: int| 0 <= j < old_views.len() && old_views[j] == x;
                        if j < i {
                            assert(n[j] == x);
                        } else {
                            assert(n[j + 1] == x);
                        }
                    }
                    if x == iv {
                        assert(n[i as int] == x);
                    }
                }
                let t = texts(v@).take(k + 1);
                assert forall|x: Seq<char>| n.contains(x) <==> t.contains(x) by {
                    if t.contains(x) {
                        let j = choose|j: int| 0 <= j < t.len() && t[j] == x;
                        if j < k {
                            assert(texts(v@).take(k as int)[j] == x);
                        }
                    }
                    if texts(v@).take(k as int).contains(x) {
                        let j = choose|j: int| 0 <= j < k && texts(v@).take(k as int)[j] == x;
                        assert(t[j] == x);
                    }
                    assert(t[k as int] == iv);
                }
            }
        } else {
            proof {
                let t = texts(v@).take(k + 1);
                assert forall|x: Seq<char>| old_views.contains(x) <==> t.contains(x) by {
                    if t.contains(x) {
                        let j = choose|j: int| 0 <= j < t.len() && t[j] == x;
                        if j < k {
                            assert(texts(v@).take(k as int)[j] == x);
                        } else {
                            assert(old_views[i as int] == x);
                        }
                    }
                    if texts(v@).take(k as int).contains(x) {
                        let j = choose|j: int| 0 <= j < k && texts(v@).take(k as int)[j] == x;
                        assert(t[j] == x);
                    }
                }
            }
        }
        k = k + 1;
    }
    proof {
        assert(texts(v@).take(v.len() as int) =~= texts(v@));
    }
    out
}

/// How two texts compare.
pub enum Rank {
    Below,
    Same,
    Above,
}

/// Compares two texts in the order of [`before`].
pub fn rank(a: &[char], b: &[char]) -> (r: Rank)
    ensures
        match r {
            Rank::Below => before(a@, b@),
            Rank::Same => a@ == b@,
            Rank::Above => before(b@, a@),
        },
{
    let mut i: usize = 0;
    while i < a.len() && i < b.len() && a[i] == b[i]
        invariant
            i <= a.len(),
            i <= b.len(),
            a@.take(i as int) == b@.take(i as int),
        decreases a.len() - i,
    {
        assert(a@.take(i + 1) =~= a@.take(i as int).push(a@[i as int]));
        assert(b@.take(i + 1) =~= b@.take(i as int).push(b@[i as int]));
        i = i + 1;
    }
    proof {
        lemma_before_skip(a@, b@, i as int);
        lemma_before_skip(b@, a@, i as int);
    }
    if i == a.len() && i == b.len() {
        assert(a@ =~= a@.take(i as int));
        assert(b@ =~= b@.take(i as int));
        Rank::Same
    } else if i == a.len() {
        Rank::Below
    } else if i == b.len() {
        Rank::Above
    } else if a[i] < b[i] {
        Rank::Below
    } else {
        Rank::Above
    }
}

// ------------------------------------------------------------------ framing

/// Every character of `s` is in the class.
pub open spec fn all_in(s: Seq<char>, p: spec_fn(char) -> bool) -> bool {
    forall|j: int| 0 <= j < s.len() ==> p(s[j])
}

/// `s` neither begins nor ends with a character of the class.
pub open spec fn bare(s: Seq<char>, p: spec_fn(char) -> bool) -> bool {
    s.len() == 0 || (!p(s[0]) && !p(s.last()))
}

/// Trimming a text whose ends are all in the class leaves what is between.
pub proof fn lemma_trim_framed(x: Seq<char>, t: Seq<char>, y: Seq<char>, p: spec_fn(char) -> bool)
    requires
        all_in(x, p),
        all_in(y, p),
        bare(t, p),
    ensures
        trim_by(x + t + y, p) == t,
        trim_start_by(x + t, p) == t,
{
    let s = x + t + y;
    if t.len() == 0 {
        assert(s == x + y);
        lemma_lead_is(s, p, s.len() as int);
        assert(trim_start_by(s, p) =~= Seq::<char>::empty());
        lemma_trail_is(Seq::<char>::empty(), p, 0);
        assert(x + t == x);
        lemma_lead_is(x, p, x.len() as int);
        assert(trim_start_by(x, p) =~= Seq::<char>::empty());
    } else {
        assert(s[x.len() as int] == t[0]);
        lemma_lead_is(s, p, x.len() as int);
        let u = trim_start_by(s, p);
        assert(u =~= t + y);
        assert(u[t.len() - 1] == t.last());
        lemma_trail_is(u, p, y.len() as int);
        assert(trim_end_by(u, p) =~= t);
        assert((x + t)[x.len() as int] == t[0]);
        lemma_lead_is(x + t, p, x.len() as int);
        assert(trim_start_by(x + t, p) =~= t);
    }
}

/// A text is what its trim leaves, framed by what the trim removed.
pub proof fn lemma_trim_parts(s: Seq<char>, p: spec_fn(char) -> bool)
    ensures
        s == s.take(lead(s, p) as int) + trim_by(s, p) + s.skip(
            (lead(s, p) + trim_by(s, p).len()) as int,
        ),
        all_in(s.take(lead(s, p) as int), p),
        all_in(s.skip((lead(s, p) + trim_by(s, p).len()) as int), p),
        bare(trim_by(s, p), p),
{
    lemma_lead(s, p);
    let u = trim_start_by(s, p);
    lemma_trail(u, p);
    let t = trim_by(s, p);
    let k = lead(s, p) as int;
    assert forall|j: int| 0 <= j < s.take(k).len() implies p(s.take(k)[j]) by {}
    let rest = s.skip(k + t.len() as int);
    assert forall|j: int| 0 <= j < rest.len() implies p(rest[j]) by {
        assert(rest[j] == u[t.len() + j]);
    }
    if t.len() > 0 {
        assert(t[0] == u[0]);
        assert(t.last() == u[u.len() - trail(u, p) - 1]);
    }
    assert(s =~= s.take(k) + t + rest);
}

/// Trimming text framed by characters of the class is trimming the text.
pub proof fn lemma_trim_reframed(x: Seq<char>, s: Seq<char>, y: Seq<char>, p: spec_fn(char) -> bool)
    requires
        all_in(x, p),
        all_in(y, p),
    ensures
        trim_by(x + s + y, p) == trim_by(s, p),
{
    lemma_trim_parts(s, p);
    let a = s.take(lead(s, p) as int);
    let t = trim_by(s, p);
    let b = s.skip((lead(s, p) + t.len()) as int);
    assert(x + s + y =~= (x + a) + t + (b + y));
    lemma_trim_framed(x + a, t, b + y, p);
}

/// A slash at `j` and another right after it.
pub open spec fn slash_pair(s: Seq<char>, j: int) -> bool {
    s[j] == '/' && s[j + 1] == '/'
}

/// No two slashes in a row.
pub open spec fn no_double_slash(s: Seq<char>) -> bool {
    forall|j: int| 0 <= j < s.len() - 1 ==> !#[trigger] slash_pair(s, j)
}

/// Having no two slashes in a row is not containing `"//"`.
pub proof fn lemma_no_double_slash(s: Seq<char>)
    ensures
        no_double_slash(s) <==> !contains(s, "//"@),
{
    reveal_strlit("//");
    if !no_double_slash(s) {
        let j = choose|j: int| 0 <= j < s.len() - 1 && slash_pair(s, j);
        assert(s.subrange(j, j + 2) =~= "//"@);
        assert(occurs_at(s, "//"@, j));
    }
    if contains(s, "//"@) {
        let j = choose|j: int| occurs_at(s, "//"@, j);
        assert(s.subrange(j, j + 2)[0] == s[j]);
        assert(s.subrange(j, j + 2)[1] == s[j + 1]);
        assert(slash_pair(s, j));
    }
}

} // verus!
