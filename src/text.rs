use vstd::prelude::*;

verus! {

/// Whether `c` has the Unicode White_Space property (what `char::is_whitespace` tests).
pub open spec fn is_space(c: char) -> bool {
    ||| ('\u{9}' <= c <= '\u{d}')
    ||| c == ' '
    ||| c == '\u{85}'
    ||| c == '\u{a0}'
    ||| c == '\u{1680}'
    ||| ('\u{2000}' <= c <= '\u{200a}')
    ||| c == '\u{2028}'
    ||| c == '\u{2029}'
    ||| c == '\u{202f}'
    ||| c == '\u{205f}'
    ||| c == '\u{3000}'
}

/// `s` without its leading white space.
pub open spec fn trim_start(s: Seq<char>) -> Seq<char>
    decreases s.len(),
{
    if s.len() > 0 && is_space(s[0]) {
        trim_start(s.drop_first())
    } else {
        s
    }
}

/// `s` without its trailing white space.
pub open spec fn trim_end(s: Seq<char>) -> Seq<char>
    decreases s.len(),
{
    if s.len() > 0 && is_space(s.last()) {
        trim_end(s.drop_last())
    } else {
        s
    }
}

/// `s` without white space at either end.
pub open spec fn trim(s: Seq<char>) -> Seq<char> {
    trim_end(trim_start(s))
}

/// `pattern` occurs in `s` at `i`.
pub open spec fn occurs_at(s: Seq<char>, pattern: Seq<char>, i: int) -> bool {
    0 <= i && i + pattern.len() <= s.len() && s.subrange(i, i + pattern.len()) == pattern
}

pub open spec fn starts_with(s: Seq<char>, pattern: Seq<char>) -> bool {
    occurs_at(s, pattern, 0)
}

pub open spec fn ends_with(s: Seq<char>, pattern: Seq<char>) -> bool {
    occurs_at(s, pattern, s.len() - pattern.len())
}

pub open spec fn contains(s: Seq<char>, pattern: Seq<char>) -> bool {
    exists|i: int| occurs_at(s, pattern, i)
}

/// Where `pattern` first occurs in `s`.
#[verifier::opaque]
pub open spec fn first_occurrence(s: Seq<char>, pattern: Seq<char>) -> Option<int> {
    if contains(s, pattern) {
        Some(choose|i: int| occurs_at(s, pattern, i) && forall|j: int| 0 <= j < i ==> !occurs_at(s, pattern, j))
    } else {
        None
    }
}

/// Whether `c` is an ASCII decimal digit.
pub open spec fn is_digit(c: char) -> bool {
    '0' <= c <= '9'
}

pub open spec fn digit_value(c: char) -> nat {
    (c as u32 - '0' as u32) as nat
}

/// The number that the decimal digits `s` spell.
pub open spec fn digits_value(s: Seq<char>) -> nat
    decreases s.len(),
{
    if s.len() == 0 {
        0
    } else {
        digits_value(s.drop_last()) * 10 + digit_value(s.last())
    }
}

pub open spec fn all_digits(s: Seq<char>) -> bool {
    forall|i: int| 0 <= i < s.len() ==> is_digit(#[trigger] s[i])
}

/// The decimal text of `n`, without leading zeros.
pub open spec fn decimal(n: nat) -> Seq<char>
    decreases n,
{
    if n < 10 {
        seq![digit_char(n)]
    } else {
        decimal(n / 10).push(digit_char(n % 10))
    }
}

pub open spec fn digit_char(d: nat) -> char {
    ('0' as u32 + d) as char
}

/// Relies on str::chars: the characters of `s`, in order.
#[verifier::external_body]
pub(crate) fn chars_of(s: &str) -> (r: Vec<char>)
    ensures
        r@ == s@,
{
    s.chars().collect()
}

/// Relies on String's FromIterator<char>: a string of exactly the characters
/// `cs[from..to]`, in order.
#[verifier::external_body]
pub(crate) fn string_of(cs: &[char], from: usize, to: usize) -> (r: String)
    requires
        from <= to <= cs@.len(),
    ensures
        r@ == cs@.subrange(from as int, to as int),
{
    cs[from..to].iter().collect()
}

/// A string of all the characters of `cs`.
pub fn string_of_all(cs: &Vec<char>) -> (r: String)
    ensures
        r@ == cs@,
{
    let r = string_of(cs.as_slice(), 0, cs.len());
    assert(cs@.subrange(0, cs@.len() as int) =~= cs@);
    r
}

pub fn char_is_space(c: char) -> (r: bool)
    ensures
        r == is_space(c),
{
    ('\u{9}' <= c && c <= '\u{d}') || c == ' ' || c == '\u{85}' || c == '\u{a0}' || c == '\u{1680}'
        || ('\u{2000}' <= c && c <= '\u{200a}') || c == '\u{2028}' || c == '\u{2029}' || c
        == '\u{202f}' || c == '\u{205f}' || c == '\u{3000}'
}

/// Bounds of `cs[from..to]` with white space trimmed from both ends.
pub fn trim_range(cs: &Vec<char>, from: usize, to: usize) -> (r: (usize, usize))
    requires
        from <= to <= cs@.len(),
    ensures
        from <= r.0 <= r.1 <= to,
        cs@.subrange(r.0 as int, r.1 as int) == trim(cs@.subrange(from as int, to as int)),
{
    let ghost s = cs@.subrange(from as int, to as int);
    let mut lo = from;
    while lo < to && char_is_space(cs[lo])
        invariant
            from <= lo <= to <= cs@.len(),
            trim_start(s) == trim_start(cs@.subrange(lo as int, to as int)),
        decreases to - lo,
    {
        assert(cs@.subrange(lo as int, to as int).drop_first() =~= cs@.subrange(
            lo + 1,
            to as int,
        ));
        lo = lo + 1;
    }
    let ghost t = cs@.subrange(lo as int, to as int);
    let mut hi = to;
    while hi > lo && char_is_space(cs[hi - 1])
        invariant
            from <= lo <= hi <= to <= cs@.len(),
            trim_end(t) == trim_end(cs@.subrange(lo as int, hi as int)),
        decreases hi - lo,
    {
        assert(cs@.subrange(lo as int, hi as int).drop_last() =~= cs@.subrange(
            lo as int,
            hi - 1,
        ));
        hi = hi - 1;
    }
    (lo, hi)
}

/// Whether `pattern` occurs in the window `cs[from..to]` at its position `at - from`.
pub fn occurs_in(cs: &Vec<char>, from: usize, to: usize, pattern: &Vec<char>, at: usize) -> (r: bool)
    requires
        from <= at,
        from <= to <= cs@.len(),
    ensures
        r == occurs_at(cs@.subrange(from as int, to as int), pattern@, at - from),
{
    let ghost s = cs@.subrange(from as int, to as int);
    if at > to || to - at < pattern.len() {
        return false;
    }
    let ghost w = s.subrange(at - from, at - from + pattern@.len());
    assert forall|j: int| 0 <= j < pattern@.len() implies w[j] == cs@[at + j] by {}
    let mut k: usize = 0;
    while k < pattern.len()
        invariant
            at + pattern@.len() <= to <= cs@.len(),
            k <= pattern@.len(),
            w.len() == pattern@.len(),
            forall|j: int| 0 <= j < pattern@.len() ==> w[j] == cs@[at + j],
            forall|j: int| 0 <= j < k ==> cs@[at + j] == pattern@[j],
        decreases pattern@.len() - k,
    {
        if cs[at + k] != pattern[k] {
            assert(w[k as int] != pattern@[k as int]);
            return false;
        }
        k = k + 1;
    }
    assert(w =~= pattern@);
    true
}

/// Where `pattern` first occurs in `cs[from..to]`, counted from `from`.
pub fn find_in(cs: &Vec<char>, from: usize, to: usize, pattern: &Vec<char>) -> (r: Option<usize>)
    requires
        from <= to <= cs@.len(),
    ensures
        r matches Some(i) ==> first_occurrence(cs@.subrange(from as int, to as int), pattern@) == Some(
            i as int,
        ),
        r is None ==> first_occurrence(cs@.subrange(from as int, to as int), pattern@) is None,
        r is Some == contains(cs@.subrange(from as int, to as int), pattern@),
{
    proof {
        reveal(first_occurrence);
    }
    let ghost s = cs@.subrange(from as int, to as int);
    if pattern.len() == 0 {
        proof {
            assert(s.subrange(0, 0) =~= pattern@);
            lemma_first_occurrence_is(s, pattern@, 0);
            assert(occurs_at(s, pattern@, 0));
        }
        return Some(0);
    }
    let mut i: usize = from;
    while i <= to && to - i >= pattern.len()
        invariant
            from <= i <= to + 1,
            to <= cs@.len(),
            pattern@.len() > 0,
            s == cs@.subrange(from as int, to as int),
            forall|j: int| 0 <= j < i - from ==> !occurs_at(s, pattern@, j),
        decreases to + 1 - i,
    {
        if occurs_in(cs, from, to, pattern, i) {
            proof {
                lemma_first_occurrence_is(s, pattern@, (i - from) as int);
                assert(contains(s, pattern@));
            }
            return Some(i - from);
        }
        i = i + 1;
    }
    assert forall|j: int| !occurs_at(s, pattern@, j) by {
        if 0 <= j && j + pattern@.len() <= s.len() {
            assert(j < i - from);
        }
    }
    None
}

proof fn lemma_first_occurrence_is(s: Seq<char>, pattern: Seq<char>, i: int)
    requires
        occurs_at(s, pattern, i),
        forall|j: int| 0 <= j < i ==> !occurs_at(s, pattern, j),
    ensures
        first_occurrence(s, pattern) == Some(i),
{
    reveal(first_occurrence);
    assert(contains(s, pattern));
    let k = choose|k: int| occurs_at(s, pattern, k) && forall|j: int| 0 <= j < k ==> !occurs_at(s, pattern, j);
    if k < i {
    } else if k > i {
        assert(!occurs_at(s, pattern, i));
    }
}

/// The decimal digits of `n`.
pub fn decimal_chars(n: u64) -> (r: Vec<char>)
    ensures
        r@ == decimal(n as nat),
    decreases n,
{
    if n < 10 {
        let c = char_of_digit(n);
        vec![c]
    } else {
        let mut r = decimal_chars(n / 10);
        let c = char_of_digit(n % 10);
        r.push(c);
        r
    }
}

fn char_of_digit(d: u64) -> (c: char)
    requires
        d < 10,
    ensures
        c == digit_char(d as nat),
{
    if d == 0 {
        '0'
    } else if d == 1 {
        '1'
    } else if d == 2 {
        '2'
    } else if d == 3 {
        '3'
    } else if d == 4 {
        '4'
    } else if d == 5 {
        '5'
    } else if d == 6 {
        '6'
    } else if d == 7 {
        '7'
    } else if d == 8 {
        '8'
    } else {
        '9'
    }
}

/// Appends the characters of `tail` to `cs`.
pub fn push_all(cs: &mut Vec<char>, tail: &Vec<char>)
    ensures
        final(cs)@ == old(cs)@ + tail@,
{
    let ghost start = cs@;
    let mut i: usize = 0;
    while i < tail.len()
        invariant
            i <= tail@.len(),
            cs@ == start + tail@.subrange(0, i as int),
        decreases tail@.len() - i,
    {
        cs.push(tail[i]);
        i = i + 1;
        assert(cs@ =~= start + tail@.subrange(0, i as int));
    }
    assert(tail@.subrange(0, i as int) =~= tail@);
}

/// Where `first_occurrence` points, the pattern occurs, within `s`.
pub proof fn lemma_first_occurrence_bounds(s: Seq<char>, pattern: Seq<char>)
    ensures
        first_occurrence(s, pattern) matches Some(i) ==> occurs_at(s, pattern, i) && 0 <= i && i
            + pattern.len() <= s.len() && forall|j: int| 0 <= j < i ==> !occurs_at(s, pattern, j),
        first_occurrence(s, pattern) is None ==> !contains(s, pattern),
{
    reveal(first_occurrence);
    if contains(s, pattern) {
        let w = choose|i: int| occurs_at(s, pattern, i);
        lemma_least_occurrence(s, pattern, w);
    }
}

proof fn lemma_least_occurrence(s: Seq<char>, pattern: Seq<char>, w: int)
    requires
        occurs_at(s, pattern, w),
    ensures
        exists|i: int| occurs_at(s, pattern, i) && forall|j: int| 0 <= j < i ==> !occurs_at(s, pattern, j),
    decreases w,
{
    if exists|j: int| 0 <= j < w && occurs_at(s, pattern, j) {
        let j = choose|j: int| 0 <= j < w && occurs_at(s, pattern, j);
        lemma_least_occurrence(s, pattern, j);
    }
}

/// `s` with every trailing `c` removed.
pub open spec fn strip_trailing(s: Seq<char>, c: char) -> Seq<char>
    decreases s.len(),
{
    if s.len() > 0 && s.last() == c {
        strip_trailing(s.drop_last(), c)
    } else {
        s
    }
}

/// `s` with every leading repetition of a non-empty `pattern` removed.
pub open spec fn strip_leading_repeats(s: Seq<char>, pattern: Seq<char>) -> Seq<char>
    decreases s.len(),
{
    if pattern.len() > 0 && starts_with(s, pattern) {
        strip_leading_repeats(s.subrange(pattern.len() as int, s.len() as int), pattern)
    } else {
        s
    }
}

/// The parts of `s` before and after the first occurrence of `pattern`.
pub open spec fn split_once(s: Seq<char>, pattern: Seq<char>) -> Option<(Seq<char>, Seq<char>)> {
    match first_occurrence(s, pattern) {
        Some(i) => Some((s.subrange(0, i), s.subrange(i + pattern.len(), s.len() as int))),
        None => None,
    }
}

/// Bound of `cs[from..to]` with every trailing `c` removed.
pub fn strip_trailing_range(cs: &Vec<char>, from: usize, to: usize, c: char) -> (r: usize)
    requires
        from <= to <= cs@.len(),
    ensures
        from <= r <= to,
        cs@.subrange(from as int, r as int) == strip_trailing(cs@.subrange(from as int, to as int), c),
{
    let mut hi = to;
    while hi > from && cs[hi - 1] == c
        invariant
            from <= hi <= to <= cs@.len(),
            strip_trailing(cs@.subrange(from as int, to as int), c) == strip_trailing(
                cs@.subrange(from as int, hi as int),
                c,
            ),
        decreases hi - from,
    {
        assert(cs@.subrange(from as int, hi as int).drop_last() =~= cs@.subrange(
            from as int,
            hi - 1,
        ));
        hi = hi - 1;
    }
    hi
}

/// Start of `cs[from..to]` once every leading repetition of `pattern` is removed.
pub fn strip_leading_repeats_range(cs: &Vec<char>, from: usize, to: usize, pattern: &Vec<char>) -> (r: usize)
    requires
        from <= to <= cs@.len(),
    ensures
        from <= r <= to,
        cs@.subrange(r as int, to as int) == strip_leading_repeats(
            cs@.subrange(from as int, to as int),
            pattern@,
        ),
{
    if pattern.len() == 0 {
        return from;
    }
    let mut lo = from;
    while lo < to && occurs_in(cs, lo, to, pattern, lo)
        invariant
            from <= lo <= to <= cs@.len(),
            pattern@.len() > 0,
            strip_leading_repeats(cs@.subrange(from as int, to as int), pattern@)
                == strip_leading_repeats(cs@.subrange(lo as int, to as int), pattern@),
        decreases to - lo,
    {
        assert(cs@.subrange(lo as int, to as int).subrange(
            pattern@.len() as int,
            (to - lo) as int,
        ) =~= cs@.subrange(lo + pattern@.len(), to as int));
        lo = lo + pattern.len();
    }
    proof {
        if lo == to {
            let e = cs@.subrange(lo as int, to as int);
            assert(!starts_with(e, pattern@));
        }
    }
    lo
}

/// Whether `cs[from..to]` starts with `pattern`.
pub fn starts_with_range(cs: &Vec<char>, from: usize, to: usize, pattern: &Vec<char>) -> (r: bool)
    requires
        from <= to <= cs@.len(),
    ensures
        r == starts_with(cs@.subrange(from as int, to as int), pattern@),
{
    occurs_in(cs, from, to, pattern, from)
}

/// Whether `cs[from..to]` is exactly `pattern`.
pub fn equals_range(cs: &Vec<char>, from: usize, to: usize, pattern: &Vec<char>) -> (r: bool)
    requires
        from <= to <= cs@.len(),
    ensures
        r == (cs@.subrange(from as int, to as int) == pattern@),
{
    if to - from != pattern.len() {
        return false;
    }
    let r = occurs_in(cs, from, to, pattern, from);
    assert(cs@.subrange(from as int, to as int).subrange(0, pattern@.len() as int) =~= cs@.subrange(
        from as int,
        to as int,
    ));
    r
}

/// Where `pattern` last occurs in `s`.
#[verifier::opaque]
pub open spec fn last_occurrence(s: Seq<char>, pattern: Seq<char>) -> Option<int> {
    if contains(s, pattern) {
        Some(choose|i: int| occurs_at(s, pattern, i) && forall|j: int| i < j ==> !occurs_at(s, pattern, j))
    } else {
        None
    }
}

proof fn lemma_last_occurrence_is(s: Seq<char>, pattern: Seq<char>, i: int)
    requires
        occurs_at(s, pattern, i),
        forall|j: int| i < j ==> !occurs_at(s, pattern, j),
    ensures
        last_occurrence(s, pattern) == Some(i),
{
    reveal(last_occurrence);
    assert(contains(s, pattern));
    let k = choose|k: int| occurs_at(s, pattern, k) && forall|j: int| k < j ==> !occurs_at(s, pattern, j);
    if k < i {
    } else if k > i {
        assert(!occurs_at(s, pattern, k));
    }
}

/// Where `pattern` last occurs in `cs[from..to]`, counted from `from`.
pub fn rfind_in(cs: &Vec<char>, from: usize, to: usize, pattern: &Vec<char>) -> (r: Option<usize>)
    requires
        from <= to <= cs@.len(),
    ensures
        r matches Some(i) ==> last_occurrence(cs@.subrange(from as int, to as int), pattern@) == Some(
            i as int,
        ) && occurs_at(cs@.subrange(from as int, to as int), pattern@, i as int),
        r is None ==> last_occurrence(cs@.subrange(from as int, to as int), pattern@) is None,
{
    proof {
        reveal(last_occurrence);
    }
    let ghost s = cs@.subrange(from as int, to as int);
    if to - from < pattern.len() {
        assert forall|j: int| !occurs_at(s, pattern@, j) by {}
        return None;
    }
    let mut k: usize = to - from - pattern.len();
    loop
        invariant
            k + pattern@.len() <= to - from,
            from <= to <= cs@.len(),
            s == cs@.subrange(from as int, to as int),
            forall|j: int| k < j ==> !occurs_at(s, pattern@, j),
        decreases k,
    {
        if occurs_in(cs, from, to, pattern, from + k) {
            proof {
                lemma_last_occurrence_is(s, pattern@, k as int);
            }
            return Some(k);
        }
        if k == 0 {
            assert forall|j: int| !occurs_at(s, pattern@, j) by {}
            proof {
                reveal(last_occurrence);
            }
            return None;
        }
        k = k - 1;
    }
}

/// Number of characters before the first white space of `s`.
pub open spec fn word_len(s: Seq<char>) -> nat
    decreases s.len(),
{
    if s.len() == 0 || is_space(s[0]) {
        0
    } else {
        1 + word_len(s.drop_first())
    }
}

/// Start of `cs[from..to]` once leading white space is removed.
pub fn skip_spaces(cs: &Vec<char>, from: usize, to: usize) -> (r: usize)
    requires
        from <= to <= cs@.len(),
    ensures
        from <= r <= to,
        cs@.subrange(r as int, to as int) == trim_start(cs@.subrange(from as int, to as int)),
{
    let mut lo = from;
    while lo < to && char_is_space(cs[lo])
        invariant
            from <= lo <= to <= cs@.len(),
            trim_start(cs@.subrange(from as int, to as int)) == trim_start(cs@.subrange(lo as int, to as int)),
        decreases to - lo,
    {
        assert(cs@.subrange(lo as int, to as int).drop_first() =~= cs@.subrange(lo + 1, to as int));
        lo = lo + 1;
    }
    lo
}

/// End of the word that `cs[from..to]` starts with.
pub fn word_end(cs: &Vec<char>, from: usize, to: usize) -> (r: usize)
    requires
        from <= to <= cs@.len(),
    ensures
        from <= r <= to,
        r - from == word_len(cs@.subrange(from as int, to as int)),
{
    let mut hi = from;
    while hi < to && !char_is_space(cs[hi])
        invariant
            from <= hi <= to <= cs@.len(),
            word_len(cs@.subrange(from as int, to as int)) == (hi - from) + word_len(cs@.subrange(hi as int, to as int)),
        decreases to - hi,
    {
        assert(cs@.subrange(hi as int, to as int).drop_first() =~= cs@.subrange(hi + 1, to as int));
        hi = hi + 1;
    }
    hi
}

/// A prefix of a digit string spells no larger a number than the whole.
pub proof fn lemma_digits_grow(digits: Seq<char>, k: int)
    requires
        0 < k <= digits.len(),
    ensures
        digits_value(digits.subrange(0, k)) <= digits_value(digits),
    decreases digits.len() - k,
{
    if k < digits.len() {
        lemma_digits_grow(digits, k + 1);
        let a = digits.subrange(0, k + 1);
        assert(a.drop_last() =~= digits.subrange(0, k));
        assert(digits_value(a) == digits_value(a.drop_last()) * 10 + digit_value(a.last()));
    } else {
        assert(digits.subrange(0, k) =~= digits);
    }
}

/// The decimal text of a number is a non-empty run of digits that spells it.
pub proof fn lemma_decimal_spells(n: nat)
    ensures
        decimal(n).len() > 0,
        all_digits(decimal(n)),
        digits_value(decimal(n)) == n,
    decreases n,
{
    let c = digit_char(n % 10);
    assert(c as u32 == '0' as u32 + n % 10);
    let d = decimal(n);
    if n >= 10 {
        lemma_decimal_spells(n / 10);
        assert(d.drop_last() == decimal(n / 10));
        assert(d.last() == c);
        assert(digits_value(d) == digits_value(d.drop_last()) * 10 + digit_value(d.last()));
        assert((n / 10) * 10 + n % 10 == n) by (nonlinear_arith);
    } else {
        assert(d.drop_last() =~= Seq::<char>::empty());
        assert(digits_value(d) == digits_value(d.drop_last()) * 10 + digit_value(d.last()));
    }
}

/// The characters `cs[from..to]`.
pub fn chars_between(cs: &Vec<char>, from: usize, to: usize) -> (r: Vec<char>)
    requires
        from <= to <= cs@.len(),
    ensures
        r@ == cs@.subrange(from as int, to as int),
{
    let mut r: Vec<char> = Vec::new();
    let mut i = from;
    while i < to
        invariant
            from <= i <= to <= cs@.len(),
            r@ == cs@.subrange(from as int, i as int),
        decreases to - i,
    {
        r.push(cs[i]);
        i = i + 1;
        assert(r@ =~= cs@.subrange(from as int, i as int));
    }
    r
}

/// `s` with every occurrence of a non-empty `pattern`, from left to right and
/// not overlapping, replaced by `with`.
pub open spec fn replace_all(s: Seq<char>, pattern: Seq<char>, with: Seq<char>) -> Seq<char>
    decreases s.len(),
{
    proof {
        lemma_first_occurrence_bounds(s, pattern);
    }
    if pattern.len() == 0 {
        s
    } else {
        match first_occurrence(s, pattern) {
            Some(i) => s.subrange(0, i) + with + replace_all(
                s.subrange(i + pattern.len(), s.len() as int),
                pattern,
                with,
            ),
            None => s,
        }
    }
}

/// `s` with every occurrence of `pattern` replaced by `with`, as `replace_all` says.
pub fn replace_all_chars(s: &Vec<char>, pattern: &Vec<char>, with: &Vec<char>) -> (r: Vec<char>)
    ensures
        r@ == replace_all(s@, pattern@, with@),
{
    if pattern.len() == 0 {
        return s.clone();
    }
    let len = s.len();
    let mut r: Vec<char> = Vec::new();
    let mut pos: usize = 0;
    assert(s@.subrange(0, len as int) =~= s@);
    loop
        invariant
            len == s@.len(),
            pos <= len,
            pattern@.len() > 0,
            r@ + replace_all(s@.subrange(pos as int, len as int), pattern@, with@) == replace_all(
                s@,
                pattern@,
                with@,
            ),
        decreases len - pos,
    {
        let ghost rest = s@.subrange(pos as int, len as int);
        proof {
            lemma_first_occurrence_bounds(rest, pattern@);
        }
        match find_in(s, pos, len, pattern) {
            Some(i) => {
                let ghost before = r@;
                let head = chars_between(s, pos, pos + i);
                push_all(&mut r, &head);
                push_all(&mut r, with);
                assert(s@.subrange(pos + i + pattern@.len(), len as int) =~= rest.subrange(
                    i + pattern@.len(),
                    rest.len() as int,
                ));
                assert(r@ =~= before + rest.subrange(0, i as int) + with@);
                pos = pos + i + pattern.len();
            },
            None => {
                let tail = chars_between(s, pos, len);
                push_all(&mut r, &tail);
                return r;
            },
        }
    }
}

/// `a` comes before `b`, or with it, in lexicographic order of characters.
pub open spec fn text_le(a: Seq<char>, b: Seq<char>) -> bool
    decreases a.len(),
{
    if a.len() == 0 {
        true
    } else if b.len() == 0 {
        false
    } else if a[0] != b[0] {
        a[0] < b[0]
    } else {
        text_le(a.drop_first(), b.drop_first())
    }
}

/// Whether `a` comes before `b`, or with it, as `text_le` says.
pub fn text_le_exec(a: &Vec<char>, b: &Vec<char>) -> (r: bool)
    ensures
        r == text_le(a@, b@),
{
    let mut i: usize = 0;
    assert(a@.subrange(0, a@.len() as int) =~= a@);
    assert(b@.subrange(0, b@.len() as int) =~= b@);
    while i < a.len() && i < b.len() && a[i] == b[i]
        invariant
            i <= a@.len(),
            i <= b@.len(),
            text_le(a@, b@) == text_le(a@.subrange(i as int, a@.len() as int), b@.subrange(i as int, b@.len() as int)),
        decreases a@.len() - i,
    {
        assert(a@.subrange(i as int, a@.len() as int).drop_first() =~= a@.subrange(i + 1, a@.len() as int));
        assert(b@.subrange(i as int, b@.len() as int).drop_first() =~= b@.subrange(i + 1, b@.len() as int));
        i = i + 1;
    }
    if i == a.len() {
        true
    } else if i == b.len() {
        false
    } else {
        a[i] < b[i]
    }
}

} // verus!
