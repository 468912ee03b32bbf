//! Text as a sequence of characters.
//!
//! The specification functions here are over `Seq<char>`, the view of `str`
//! and `String`; every executable function is stated in terms of them.
use vstd::prelude::*;
use vstd::utf8::{decode_utf8, encode_scalar, encode_utf8, valid_utf8};

verus! {

/// `String::push` appends one character to the end of the string.
pub assume_specification[ String::push ](s: &mut String, c: char)
    ensures
        final(s)@ == old(s)@.push(c),
;

/// `char::is_whitespace` tests the Unicode property `White_Space`.
pub assume_specification[ char::is_whitespace ](c: char) -> (r: bool)
    ensures
        r == white(c),
;

// ---------------------------------------------------------------------------
// specification vocabulary

/// The characters that have the Unicode property `White_Space`.
pub open spec fn white(c: char) -> bool {
    ||| '\u{9}' <= c <= '\u{d}'
    ||| c == ' '
    ||| c == '\u{85}'
    ||| c == '\u{a0}'
    ||| c == '\u{1680}'
    ||| '\u{2000}' <= c <= '\u{200a}'
    ||| c == '\u{2028}'
    ||| c == '\u{2029}'
    ||| c == '\u{202f}'
    ||| c == '\u{205f}'
    ||| c == '\u{3000}'
}

pub open spec fn is_digit(c: char) -> bool {
    '0' <= c <= '9'
}

/// `s` without its leading whitespace.
pub open spec fn trim_start_of(s: Seq<char>) -> Seq<char>
    decreases s.len(),
{
    if s.len() > 0 && white(s[0]) {
        trim_start_of(s.skip(1))
    } else {
        s
    }
}

/// `s` without its trailing whitespace.
pub open spec fn trim_end_of(s: Seq<char>) -> Seq<char>
    decreases s.len(),
{
    if s.len() > 0 && white(s.last()) {
        trim_end_of(s.drop_last())
    } else {
        s
    }
}

/// `s` without whitespace at either end.
pub open spec fn trimmed(s: Seq<char>) -> Seq<char> {
    trim_end_of(trim_start_of(s))
}

/// `s` without the run of `c` at its end.
pub open spec fn trim_end_char(s: Seq<char>, c: char) -> Seq<char>
    decreases s.len(),
{
    if s.len() > 0 && s.last() == c {
        trim_end_char(s.drop_last(), c)
    } else {
        s
    }
}

/// `s` without the run of ASCII digits at its end.
pub open spec fn trim_end_digits_of(s: Seq<char>) -> Seq<char>
    decreases s.len(),
{
    if s.len() > 0 && is_digit(s.last()) {
        trim_end_digits_of(s.drop_last())
    } else {
        s
    }
}

/// `pat` stands in `s` at position `i`.
pub open spec fn occurs_at(s: Seq<char>, pat: Seq<char>, i: int) -> bool {
    &&& 0 <= i
    &&& i + pat.len() <= s.len()
    &&& s.subrange(i, i + pat.len()) == pat
}

/// `pat` stands somewhere in `s`.
pub open spec fn occurs(s: Seq<char>, pat: Seq<char>) -> bool {
    exists|i: int| occurs_at(s, pat, i)
}

/// The first position at or after `from` where `pat` stands in `s`.
pub open spec fn find_from(s: Seq<char>, pat: Seq<char>, from: int) -> Option<int>
    decreases s.len() - from + 1,
{
    if from + pat.len() > s.len() {
        None
    } else if occurs_at(s, pat, from) {
        Some(from)
    } else {
        find_from(s, pat, from + 1)
    }
}

/// The first position where `pat` stands in `s`.
pub open spec fn find(s: Seq<char>, pat: Seq<char>) -> Option<int> {
    find_from(s, pat, 0)
}

/// The last position at or before `from` where `pat` stands in `s`.
pub open spec fn rfind_from(s: Seq<char>, pat: Seq<char>, from: int) -> Option<int>
    decreases from + 1,
{
    if from < 0 {
        None
    } else if occurs_at(s, pat, from) {
        Some(from)
    } else {
        rfind_from(s, pat, from - 1)
    }
}

/// The last position where `pat` stands in `s`.
pub open spec fn rfind(s: Seq<char>, pat: Seq<char>) -> Option<int> {
    rfind_from(s, pat, s.len() - pat.len())
}

/// `s` begins with `pat`.
pub open spec fn begins(s: Seq<char>, pat: Seq<char>) -> bool {
    pat.len() <= s.len() && s.take(pat.len() as int) == pat
}

/// `s` ends with `pat`.
pub open spec fn ends(s: Seq<char>, pat: Seq<char>) -> bool {
    pat.len() <= s.len() && s.skip(s.len() - pat.len()) == pat
}

/// What stands in `s` before the first `c`; all of `s` where there is none.
pub open spec fn until(s: Seq<char>, c: char) -> Seq<char>
    decreases s.len(),
{
    if s.len() == 0 || s[0] == c {
        Seq::empty()
    } else {
        seq![s[0]] + until(s.skip(1), c)
    }
}

/// The parts, with `sep` between each two.
pub open spec fn joined(parts: Seq<Seq<char>>, sep: Seq<char>) -> Seq<char>
    decreases parts.len(),
{
    if parts.len() == 0 {
        Seq::empty()
    } else if parts.len() == 1 {
        parts[0]
    } else {
        joined(parts.drop_last(), sep) + sep + parts.last()
    }
}

/// The texts of a list of strings.
pub open spec fn texts(v: Seq<String>) -> Seq<Seq<char>> {
    Seq::new(v.len(), |i: int| v[i]@)
}

/// The decimal digit of value `d`.
pub open spec fn digit(d: int) -> char {
    (48 + d) as char
}

/// `n` in decimal, without leading zeros.
pub open spec fn decimal(n: nat) -> Seq<char>
    decreases n,
{
    if n < 10 {
        seq![digit(n as int)]
    } else {
        decimal(n / 10).push(digit((n % 10) as int))
    }
}

/// The value of a run of decimal digits.
pub open spec fn number(s: Seq<char>) -> nat
    decreases s.len(),
{
    if s.len() == 0 {
        0
    } else {
        number(s.drop_last()) * 10 + (s.last() as int - 48) as nat
    }
}

/// `s` is one or more decimal digits.
pub open spec fn digits(s: Seq<char>) -> bool {
    &&& s.len() > 0
    &&& forall|i: int| 0 <= i < s.len() ==> is_digit(#[trigger] s[i])
}

/// The unsigned integer that `s` spells: decimal digits after an optional `+`,
/// of a value of at most `max`.
pub open spec fn unsigned(s: Seq<char>, max: nat) -> Option<nat> {
    let d = if s.len() > 0 && s[0] == '+' {
        s.skip(1)
    } else {
        s
    };
    if digits(d) && number(d) <= max {
        Some(number(d))
    } else {
        None
    }
}

/// The 64-bit signed integer that `s` spells: decimal digits after an optional
/// sign.
pub open spec fn signed(s: Seq<char>) -> Option<int> {
    if s.len() > 0 && s[0] == '-' {
        let d = s.skip(1);
        if digits(d) && -(number(d) as int) >= i64::MIN {
            Some(-(number(d) as int))
        } else {
            None
        }
    } else {
        match unsigned(s, i64::MAX as nat) {
            Some(n) => Some(n as int),
            None => None,
        }
    }
}

/// The lower-case form of an ASCII letter; any other character itself.
pub open spec fn lower(c: char) -> char {
    if 'A' <= c <= 'Z' {
        (c as int + 32) as char
    } else {
        c
    }
}

/// `s` with its ASCII letters in lower case.
pub open spec fn lowered(s: Seq<char>) -> Seq<char> {
    Seq::new(s.len(), |i: int| lower(s[i]))
}

/// `s` with every `from` turned into `to`.
pub open spec fn replaced(s: Seq<char>, from: char, to: char) -> Seq<char> {
    Seq::new(
        s.len(),
        |i: int|
            if s[i] == from {
                to
            } else {
                s[i]
            },
    )
}

/// The lower-case hexadecimal digit of value `d`.
pub open spec fn hex_digit(d: int) -> char {
    if d < 10 {
        (48 + d) as char
    } else {
        (87 + d) as char
    }
}

/// Two lower-case hexadecimal digits for each byte.
pub open spec fn hex(bytes: Seq<u8>) -> Seq<char> {
    Seq::new(
        2 * bytes.len(),
        |i: int|
            if i % 2 == 0 {
                hex_digit(bytes[i / 2] as int / 16)
            } else {
                hex_digit(bytes[i / 2] as int % 16)
            },
    )
}

/// The number of bytes of `s` in UTF-8.
pub open spec fn utf8_len(s: Seq<char>) -> nat {
    encode_utf8(s).len()
}

/// The longest beginning of `s` that takes at most `max` bytes in UTF-8.
pub open spec fn fit(s: Seq<char>, max: nat) -> Seq<char>
    decreases s.len(),
{
    if utf8_len(s) <= max || s.len() == 0 {
        s
    } else {
        fit(s.drop_last(), max)
    }
}

/// What `String::from_utf8_lossy` makes of a run of bytes.
pub uninterp spec fn lossy(bytes: Seq<u8>) -> Seq<char>;

/// `String::from_utf8_lossy`: the text of a run of bytes, with the replacement
/// character where they are no UTF-8. What it is depends on the bytes alone;
/// for bytes that are UTF-8 it is the text they encode.
#[verifier::external_body]
pub(crate) fn lossy_text(bytes: &[u8]) -> (r: String)
    ensures
        r@ == lossy(bytes@),
        valid_utf8(bytes@) ==> r@ == decode_utf8(bytes@),
{
    String::from_utf8_lossy(bytes).into_owned()
}

// ---------------------------------------------------------------------------
// building and comparing

/// The characters of a string, in order.
pub fn chars_of(s: &str) -> (r: Vec<char>)
    ensures
        r@ == s@,
{
    let mut out: Vec<char> = Vec::new();
    for c in it: s.chars()
        invariant
            out@ == it.seq().take(it.index() as int),
            it.seq() == s@,
    {
        out.push(c);
    }
    out
}

/// The string made of `cs[from..to]`.
pub fn string_between(cs: &[char], from: usize, to: usize) -> (r: String)
    requires
        from <= to <= cs@.len(),
    ensures
        r@ == cs@.subrange(from as int, to as int),
{
    let mut out = String::new();
    for i in from..to
        invariant
            from <= to <= cs@.len(),
            out@ == cs@.subrange(from as int, i as int),
    {
        out.push(cs[i]);
        assert(cs@.subrange(from as int, i as int).push(cs@[i as int]) =~= cs@.subrange(
            from as int,
            i + 1,
        ));
    }
    out
}

/// A copy of a string.
pub fn copy(s: &str) -> (r: String)
    ensures
        r@ == s@,
{
    s.to_owned()
}

/// A copy of an optional string.
pub fn copy_opt(s: &Option<String>) -> (r: Option<String>)
    ensures
        r == *s,
{
    match s {
        Some(t) => Some(t.clone()),
        None => None,
    }
}

/// `a` and `b` hold the same characters from `i` and `j` on, for `n` of them.
fn same_chars(a: &[char], i: usize, b: &[char], j: usize, n: usize) -> (r: bool)
    requires
        i + n <= a@.len(),
        j + n <= b@.len(),
    ensures
        r == (a@.subrange(i as int, i + n) == b@.subrange(j as int, j + n)),
{
    let ghost x = a@.subrange(i as int, i + n);
    let ghost y = b@.subrange(j as int, j + n);
    let mut k: usize = 0;
    while k < n
        invariant
            i + n <= a.len(),
            j + n <= b.len(),
            k <= n,
            x == a@.subrange(i as int, i + n),
            y == b@.subrange(j as int, j + n),
            forall|m: int| 0 <= m < k ==> x[m] == y[m],
        decreases n - k,
    {
        if a[i + k] != b[j + k] {
            assert(x[k as int] != y[k as int]);
            return false;
        }
        k += 1;
    }
    assert(x =~= y);
    true
}

/// Whether two strings hold the same text.
pub fn same_text(a: &str, b: &str) -> (r: bool)
    ensures
        r == (a@ == b@),
{
    let x = chars_of(a);
    let y = chars_of(b);
    if x.len() != y.len() {
        return false;
    }
    assert(x@.subrange(0, x@.len() as int) =~= x@);
    assert(y@.subrange(0, y@.len() as int) =~= y@);
    same_chars(&x, 0, &y, 0, x.len())
}

/// Whether two strings are equal but for the case of ASCII letters.
pub fn same_ignoring_case(a: &str, b: &str) -> (r: bool)
    ensures
        r == (lowered(a@) == lowered(b@)),
{
    let x = lower_text(a);
    let y = lower_text(b);
    same_text(&x, &y)
}

/// `s` with its ASCII letters in lower case.
pub fn lower_text(s: &str) -> (r: String)
    ensures
        r@ == lowered(s@),
{
    let cs = chars_of(s);
    let mut out = String::new();
    for i in 0..cs.len()
        invariant
            cs@ == s@,
            out@ == lowered(s@).take(i as int),
    {
        let c = cs[i];
        let d = if 'A' <= c && c <= 'Z' {
            ((c as u8) + 32) as char
        } else {
            c
        };
        out.push(d);
        assert(lowered(s@).take(i as int).push(lowered(s@)[i as int]) =~= lowered(s@).take(i + 1));
    }
    assert(lowered(s@).take(s@.len() as int) =~= lowered(s@));
    out
}

/// `s` with every `from` turned into `to`.
pub fn replace_char(s: &str, from: char, to: char) -> (r: String)
    ensures
        r@ == replaced(s@, from, to),
{
    let cs = chars_of(s);
    let mut out = String::new();
    for i in 0..cs.len()
        invariant
            cs@ == s@,
            out@ == replaced(s@, from, to).take(i as int),
    {
        let c = cs[i];
        out.push(
            if c == from {
                to
            } else {
                c
            },
        );
        assert(replaced(s@, from, to).take(i as int).push(replaced(s@, from, to)[i as int])
            =~= replaced(s@, from, to).take(i + 1));
    }
    assert(replaced(s@, from, to).take(s@.len() as int) =~= replaced(s@, from, to));
    out
}

// ---------------------------------------------------------------------------
// trimming

proof fn lemma_trim_start(s: Seq<char>, n: int)
    requires
        0 <= n <= s.len(),
        forall|i: int| 0 <= i < n ==> white(#[trigger] s[i]),
        n == s.len() || !white(s[n]),
    ensures
        trim_start_of(s) == s.skip(n),
    decreases n,
{
    if n > 0 {
        assert(white(s[0]));
        assert forall|i: int| 0 <= i < n - 1 implies white(#[trigger] s.skip(1)[i]) by {
            assert(s.skip(1)[i] == s[i + 1]);
        }
        lemma_trim_start(s.skip(1), n - 1);
        assert(s.skip(1).skip(n - 1) =~= s.skip(n));
    } else {
        assert(s.skip(0) =~= s);
    }
}

proof fn lemma_trim_end(s: Seq<char>, n: int)
    requires
        0 <= n <= s.len(),
        forall|i: int| n <= i < s.len() ==> white(#[trigger] s[i]),
        n == 0 || !white(s[n - 1]),
    ensures
        trim_end_of(s) == s.take(n),
    decreases s.len(),
{
    if n < s.len() {
        assert(white(s[s.len() - 1]));
        lemma_trim_end(s.drop_last(), n);
        assert(s.drop_last().take(n) =~= s.take(n));
    } else {
        assert(s.take(n) =~= s);
    }
}

/// The bounds of what is left of `cs` without whitespace at either end.
fn trim_bounds(cs: &[char]) -> (r: (usize, usize))
    ensures
        r.0 <= r.1 <= cs@.len(),
        cs@.subrange(r.0 as int, r.1 as int) == trimmed(cs@),
{
    let mut a: usize = 0;
    while a < cs.len() && cs[a].is_whitespace()
        invariant
            a <= cs@.len(),
            forall|i: int| 0 <= i < a ==> white(#[trigger] cs@[i]),
        ensures
            a <= cs@.len(),
            forall|i: int| 0 <= i < a ==> white(#[trigger] cs@[i]),
            a == cs@.len() || !white(cs@[a as int]),
        decreases cs@.len() - a,
    {
        a += 1;
    }
    proof {
        lemma_trim_start(cs@, a as int);
    }
    let ghost t = cs@.skip(a as int);
    let mut b: usize = cs.len();
    while b > a && cs[b - 1].is_whitespace()
        invariant
            a <= b <= cs@.len(),
            forall|i: int| b <= i < cs@.len() ==> white(#[trigger] cs@[i]),
        ensures
            a <= b <= cs@.len(),
            forall|i: int| b <= i < cs@.len() ==> white(#[trigger] cs@[i]),
            b == a || !white(cs@[b - 1]),
        decreases b,
    {
        b -= 1;
    }
    proof {
        assert forall|i: int| b - a <= i < t.len() implies white(#[trigger] t[i]) by {
            assert(t[i] == cs@[i + a]);
        }
        lemma_trim_end(t, b - a);
        assert(t.take(b - a) =~= cs@.subrange(a as int, b as int));
    }
    (a, b)
}

/// `s` without whitespace at either end.
pub fn trim(s: &str) -> (r: String)
    ensures
        r@ == trimmed(s@),
{
    let cs = chars_of(s);
    let (a, b) = trim_bounds(&cs);
    string_between(&cs, a, b)
}

/// `s` without its leading whitespace.
pub fn trim_start(s: &str) -> (r: String)
    ensures
        r@ == trim_start_of(s@),
{
    let cs = chars_of(s);
    let mut a: usize = 0;
    while a < cs.len() && cs[a].is_whitespace()
        invariant
            a <= cs@.len(),
            forall|i: int| 0 <= i < a ==> white(#[trigger] cs@[i]),
        ensures
            a <= cs@.len(),
            forall|i: int| 0 <= i < a ==> white(#[trigger] cs@[i]),
            a == cs@.len() || !white(cs@[a as int]),
        decreases cs@.len() - a,
    {
        a += 1;
    }
    proof {
        lemma_trim_start(cs@, a as int);
        assert(cs@.subrange(a as int, cs@.len() as int) =~= cs@.skip(a as int));
    }
    string_between(&cs, a, cs.len())
}

/// Whether `s` is empty or whitespace alone.
pub fn is_blank(s: &str) -> (r: bool)
    ensures
        r == (trimmed(s@).len() == 0),
{
    let cs = chars_of(s);
    let (a, b) = trim_bounds(&cs);
    a == b
}

/// `s` without the run of `c` at its end.
pub fn trim_end_matches(s: &str, c: char) -> (r: String)
    ensures
        r@ == trim_end_char(s@, c),
{
    let cs = chars_of(s);
    let mut b: usize = cs.len();
    assert(cs@.take(b as int) =~= cs@);
    while b > 0 && cs[b - 1] == c
        invariant
            b <= cs@.len(),
            cs@ == s@,
            trim_end_char(cs@.take(b as int), c) == trim_end_char(s@, c),
        ensures
            b <= cs@.len(),
            trim_end_char(cs@.take(b as int), c) == trim_end_char(s@, c),
            b == 0 || cs@[b - 1] != c,
        decreases b,
    {
        assert(cs@.take(b as int).drop_last() =~= cs@.take(b - 1));
        b -= 1;
    }
    assert(cs@.subrange(0, b as int) =~= cs@.take(b as int));
    string_between(&cs, 0, b)
}

/// `s` without the run of ASCII digits at its end.
pub fn trim_end_digits(s: &str) -> (r: String)
    ensures
        r@ == trim_end_digits_of(s@),
{
    let cs = chars_of(s);
    let mut b: usize = cs.len();
    assert(cs@.take(b as int) =~= cs@);
    while b > 0 && '0' <= cs[b - 1] && cs[b - 1] <= '9'
        invariant
            b <= cs@.len(),
            cs@ == s@,
            trim_end_digits_of(cs@.take(b as int)) == trim_end_digits_of(s@),
        ensures
            b <= cs@.len(),
            trim_end_digits_of(cs@.take(b as int)) == trim_end_digits_of(s@),
            b == 0 || !is_digit(cs@[b - 1]),
        decreases b,
    {
        assert(cs@.take(b as int).drop_last() =~= cs@.take(b - 1));
        b -= 1;
    }
    assert(cs@.subrange(0, b as int) =~= cs@.take(b as int));
    string_between(&cs, 0, b)
}

// ---------------------------------------------------------------------------
// searching

/// What `find_from` gives back is the least position of all.
pub proof fn lemma_find_from(s: Seq<char>, pat: Seq<char>, from: int)
    requires
        0 <= from,
    ensures
        match find_from(s, pat, from) {
            Some(i) => from <= i && occurs_at(s, pat, i) && forall|j: int|
                from <= j < i ==> !occurs_at(s, pat, j),
            None => forall|j: int| from <= j ==> !occurs_at(s, pat, j),
        },
    decreases s.len() - from + 1,
{
    if from + pat.len() > s.len() {
    } else if occurs_at(s, pat, from) {
    } else {
        lemma_find_from(s, pat, from + 1);
    }
}

/// `find` and `occurs` agree on whether a pattern is there.
pub proof fn lemma_find_has(s: Seq<char>, pat: Seq<char>)
    ensures
        find(s, pat) is Some <==> occurs(s, pat),
{
    lemma_find_from(s, pat, 0);
    match find(s, pat) {
        Some(i) => {
            assert(occurs_at(s, pat, i));
        },
        None => {
            assert forall|j: int| !occurs_at(s, pat, j) by {
                if 0 <= j {
                    assert(!occurs_at(s, pat, j));
                }
            }
        },
    }
}

/// What `rfind_from` gives back is the greatest position of all.
pub proof fn lemma_rfind_from(s: Seq<char>, pat: Seq<char>, from: int)
    ensures
        match rfind_from(s, pat, from) {
            Some(i) => i <= from && occurs_at(s, pat, i) && forall|j: int|
                i < j <= from ==> !occurs_at(s, pat, j),
            None => forall|j: int| j <= from ==> !occurs_at(s, pat, j),
        },
    decreases from + 1,
{
    if from >= 0 && !occurs_at(s, pat, from) {
        lemma_rfind_from(s, pat, from - 1);
    }
}

/// Whether `pat` stands in `s` at position `i`.
fn stands_at(s: &[char], pat: &[char], i: usize) -> (r: bool)
    ensures
        r == occurs_at(s@, pat@, i as int),
{
    if pat.len() > s.len() || i > s.len() - pat.len() {
        return false;
    }
    assert(pat@.subrange(0, pat@.len() as int) =~= pat@);
    same_chars(s, i, pat, 0, pat.len())
}

/// The first position at or after `from` where `pat` stands in `s`.
pub fn find_chars(s: &[char], pat: &[char], from: usize) -> (r: Option<usize>)
    requires
        from <= s@.len(),
    ensures
        match r {
            Some(i) => find_from(s@, pat@, from as int) == Some(i as int) && from <= i && i
                + pat@.len() <= s.len(),
            None => find_from(s@, pat@, from as int) is None,
        },
{
    let mut i: usize = from;
    while i < s.len()
        invariant
            from <= i <= s@.len(),
            find_from(s@, pat@, from as int) == find_from(s@, pat@, i as int),
        decreases s@.len() - i,
    {
        if stands_at(s, pat, i) {
            return Some(i);
        }
        i += 1;
    }
    if pat.len() == 0 {
        assert(s@.subrange(i as int, i as int) =~= pat@);
        Some(i)
    } else {
        None
    }
}

/// The last position where `pat` stands in `s`.
pub fn rfind_chars(s: &[char], pat: &[char]) -> (r: Option<usize>)
    ensures
        match r {
            Some(i) => rfind(s@, pat@) == Some(i as int) && i + pat@.len() <= s.len(),
            None => rfind(s@, pat@) is None,
        },
{
    if pat.len() > s.len() {
        return None;
    }
    let mut n: usize = s.len() - pat.len();
    while n > 0
        invariant
            n <= s@.len() - pat@.len(),
            rfind(s@, pat@) == rfind_from(s@, pat@, n as int),
        decreases n,
    {
        if stands_at(s, pat, n) {
            return Some(n);
        }
        n -= 1;
    }
    assert(rfind_from(s@, pat@, -1) is None);
    if stands_at(s, pat, 0) {
        Some(0)
    } else {
        None
    }
}

/// Whether `pat` stands somewhere in `s`.
pub fn contains(s: &str, pat: &str) -> (r: bool)
    ensures
        r == occurs(s@, pat@),
{
    let cs = chars_of(s);
    let ps = chars_of(pat);
    proof {
        lemma_find_has(s@, pat@);
    }
    find_chars(&cs, &ps, 0).is_some()
}

/// Whether `s` begins with `pat`.
pub fn starts_with(s: &str, pat: &str) -> (r: bool)
    ensures
        r == begins(s@, pat@),
{
    let cs = chars_of(s);
    let ps = chars_of(pat);
    proof {
        if pat@.len() <= s@.len() {
            assert(s@.subrange(0, pat@.len() as int) =~= s@.take(pat@.len() as int));
        }
    }
    stands_at(&cs, &ps, 0)
}

/// Whether `s` ends with `pat`.
pub fn ends_with(s: &str, pat: &str) -> (r: bool)
    ensures
        r == ends(s@, pat@),
{
    let cs = chars_of(s);
    let ps = chars_of(pat);
    if ps.len() > cs.len() {
        return false;
    }
    assert(s@.subrange(s@.len() - pat@.len(), s@.len() as int) =~= s@.skip(s@.len() - pat@.len()));
    stands_at(&cs, &ps, cs.len() - ps.len())
}

/// What follows `pat` where `s` begins with it.
pub fn strip_prefix(s: &str, pat: &str) -> (r: Option<String>)
    ensures
        match r {
            Some(t) => begins(s@, pat@) && t@ == s@.skip(pat@.len() as int),
            None => !begins(s@, pat@),
        },
{
    let cs = chars_of(s);
    let n: usize = chars_of(pat).len();
    if starts_with(s, pat) {
        assert(s@.subrange(n as int, s@.len() as int) =~= s@.skip(n as int));
        Some(string_between(&cs, n, cs.len()))
    } else {
        None
    }
}

/// Where the first `c` stands is where `until` ends.
pub proof fn lemma_until(s: Seq<char>, c: char, n: int)
    requires
        0 <= n <= s.len(),
        forall|i: int| 0 <= i < n ==> s[i] != c,
        n == s.len() || s[n] == c,
    ensures
        until(s, c) == s.take(n),
    decreases n,
{
    if n > 0 {
        assert(s[0] != c);
        assert forall|i: int| 0 <= i < n - 1 implies s.skip(1)[i] != c by {
            assert(s.skip(1)[i] == s[i + 1]);
        }
        lemma_until(s.skip(1), c, n - 1);
        assert(seq![s[0]] + s.skip(1).take(n - 1) =~= s.take(n));
    } else {
        assert(s.take(0) =~= Seq::<char>::empty());
    }
}

/// The position of the first `c`, or the length where there is none.
pub fn position_of(cs: &[char], c: char) -> (r: usize)
    ensures
        r <= cs@.len(),
        until(cs@, c) == cs@.take(r as int),
        r == cs@.len() || cs@[r as int] == c,
        r == cs@.len() ==> !cs@.contains(c),
{
    let mut i: usize = 0;
    while i < cs.len() && cs[i] != c
        invariant
            i <= cs@.len(),
            forall|j: int| 0 <= j < i ==> cs@[j] != c,
        ensures
            i <= cs@.len(),
            forall|j: int| 0 <= j < i ==> cs@[j] != c,
            i == cs@.len() || cs@[i as int] == c,
        decreases cs@.len() - i,
    {
        i += 1;
    }
    proof {
        lemma_until(cs@, c, i as int);
    }
    i
}

/// What stands in `s` before the first `c`; all of `s` where there is none.
pub fn before_char(s: &str, c: char) -> (r: String)
    ensures
        r@ == until(s@, c),
{
    let cs = chars_of(s);
    let n = position_of(&cs, c);
    assert(cs@.subrange(0, n as int) =~= cs@.take(n as int));
    string_between(&cs, 0, n)
}

/// What stands before and after the first `c`, where there is one.
pub fn split_once(s: &str, c: char) -> (r: Option<(String, String)>)
    ensures
        match r {
            Some((a, b)) => s@.contains(c) && a@ == until(s@, c) && b@ == s@.skip(
                until(s@, c).len() as int + 1,
            ),
            None => !s@.contains(c),
        },
{
    let cs = chars_of(s);
    let n = position_of(&cs, c);
    if n == cs.len() {
        return None;
    }
    assert(cs@.subrange(0, n as int) =~= cs@.take(n as int));
    assert(cs@.subrange(n + 1, cs@.len() as int) =~= cs@.skip(n + 1));
    assert(cs@[n as int] == c);
    Some((string_between(&cs, 0, n), string_between(&cs, n + 1, cs.len())))
}

// ---------------------------------------------------------------------------
// numbers

/// `n` in decimal, without leading zeros.
pub fn decimal_text(n: u64) -> (r: String)
    ensures
        r@ == decimal(n as nat),
    decreases n,
{
    let last = (48 + (n % 10) as u8) as char;
    if n < 10 {
        let mut out = String::new();
        out.push(last);
        assert(out@ =~= seq![digit(n as int)]);
        out
    } else {
        let mut out = decimal_text(n / 10);
        out.push(last);
        out
    }
}

/// Dropping digits at the end does not make the value greater.
proof fn lemma_number_monotonic(s: Seq<char>, n: int)
    requires
        0 <= n <= s.len(),
        forall|i: int| 0 <= i < s.len() ==> is_digit(#[trigger] s[i]),
    ensures
        number(s.take(n)) <= number(s),
    decreases s.len(),
{
    if n == s.len() {
        assert(s.take(n) =~= s);
    } else {
        assert forall|i: int| 0 <= i < s.drop_last().len() implies is_digit(
            #[trigger] s.drop_last()[i],
        ) by {
            assert(s.drop_last()[i] == s[i]);
        }
        lemma_number_monotonic(s.drop_last(), n);
        assert(s.drop_last().take(n) =~= s.take(n));
    }
}

/// The value of `cs[from..]` where it is one or more digits and the value is at
/// most `max`.
fn digits_value(cs: &[char], from: usize, max: u64) -> (r: Option<u64>)
    requires
        from <= cs@.len(),
    ensures
        match r {
            Some(n) => digits(cs@.skip(from as int)) && number(cs@.skip(from as int)) == n && n
                <= max,
            None => !digits(cs@.skip(from as int)) || number(cs@.skip(from as int)) > max,
        },
{
    let ghost d = cs@.skip(from as int);
    let mut v: u64 = 0;
    let mut i: usize = from;
    assert(d.take(0) =~= Seq::<char>::empty());
    // runs to the end even once the value is too great, so that a character that
    // is no digit is always found
    let mut over: bool = false;
    while i < cs.len()
        invariant
            from <= i <= cs@.len(),
            d == cs@.skip(from as int),
            forall|j: int| 0 <= j < i - from ==> is_digit(#[trigger] d[j]),
            !over ==> v == number(d.take(i - from)) && v <= max,
            over ==> number(d.take(i - from)) > max,
        decreases cs@.len() - i,
    {
        let c = cs[i];
        assert(d[i - from] == c);
        if !('0' <= c && c <= '9') {
            return None;
        }
        let x: u64 = (c as u8 - 48) as u64;
        assert(d.take(i - from + 1).drop_last() =~= d.take(i - from));
        assert(d.take(i - from + 1).last() == c);
        assert(number(d.take(i - from + 1)) == number(d.take(i - from)) * 10 + x as nat);
        if !over {
            if v > max / 10 || x > max - v * 10 {
                over = true;
            } else {
                v = v * 10 + x;
            }
        }
        i += 1;
    }
    assert(d.take(d.len() as int) =~= d);
    if over || from == cs.len() {
        None
    } else {
        Some(v)
    }
}

/// The unsigned integer of at most `max` that `s` spells.
pub fn parse_unsigned(s: &str, max: u64) -> (r: Option<u64>)
    ensures
        match r {
            Some(n) => unsigned(s@, max as nat) == Some(n as nat),
            None => unsigned(s@, max as nat) is None,
        },
{
    let cs = chars_of(s);
    if cs.len() > 0 && cs[0] == '+' {
        digits_value(&cs, 1, max)
    } else {
        assert(s@.skip(0) =~= s@);
        digits_value(&cs, 0, max)
    }
}

/// The 64-bit signed integer that `s` spells.
pub fn parse_signed(s: &str) -> (r: Option<i64>)
    ensures
        match r {
            Some(n) => signed(s@) == Some(n as int),
            None => signed(s@) is None,
        },
{
    let cs = chars_of(s);
    if cs.len() > 0 && cs[0] == '-' {
        match digits_value(&cs, 1, 9223372036854775808) {
            Some(n) => if n == 9223372036854775808 {
                Some(i64::MIN)
            } else {
                Some(-(n as i64))
            },
            None => None,
        }
    } else {
        match parse_unsigned(s, 9223372036854775807) {
            Some(n) => Some(n as i64),
            None => None,
        }
    }
}

fn hex_char(d: u8) -> (r: char)
    requires
        d < 16,
    ensures
        r == hex_digit(d as int),
{
    if d < 10 {
        (48 + d) as char
    } else {
        (87 + d) as char
    }
}

/// Two lower-case hexadecimal digits for each byte.
pub fn hex_text(bytes: &[u8]) -> (r: String)
    ensures
        r@ == hex(bytes@),
{
    let mut out = String::new();
    for i in 0..bytes.len()
        invariant
            out@ == hex(bytes@).take(2 * i),
    {
        let b = bytes[i];
        let ghost h = hex(bytes@);
        out.push(hex_char(b / 16));
        out.push(hex_char(b % 16));
        assert(h[2 * i] == hex_digit(b as int / 16));
        assert(h[2 * i + 1] == hex_digit(b as int % 16));
        assert(out@ =~= h.take(2 * (i + 1)));
    }
    assert(hex(bytes@).take(2 * bytes@.len() as int) =~= hex(bytes@));
    out
}

// ---------------------------------------------------------------------------
// UTF-8

proof fn lemma_encode_push(s: Seq<char>, c: char)
    ensures
        encode_utf8(s.push(c)) == encode_utf8(s) + encode_scalar(c as u32),
    decreases s.len(),
{
    reveal_with_fuel(encode_utf8, 2);
    if s.len() == 0 {
        assert(s.push(c).drop_first() =~= Seq::<char>::empty());
        assert(encode_utf8(s.push(c)) =~= encode_utf8(s) + encode_scalar(c as u32));
    } else {
        assert(s.push(c).drop_first() =~= s.drop_first().push(c));
        lemma_encode_push(s.drop_first(), c);
        assert(encode_utf8(s.push(c)) =~= encode_utf8(s) + encode_scalar(c as u32));
    }
}

/// A beginning of a text takes no more bytes than the text.
pub proof fn lemma_utf8_len_take(s: Seq<char>, n: int)
    requires
        0 <= n <= s.len(),
    ensures
        utf8_len(s.take(n)) <= utf8_len(s),
    decreases s.len(),
{
    if n == s.len() {
        assert(s.take(n) =~= s);
    } else {
        lemma_encode_push(s.drop_last(), s.last());
        assert(s.drop_last().push(s.last()) =~= s);
        lemma_utf8_len_take(s.drop_last(), n);
        assert(s.drop_last().take(n) =~= s.take(n));
    }
}

proof fn lemma_fit(s: Seq<char>, max: nat, n: int)
    requires
        0 <= n < s.len(),
        utf8_len(s.take(n)) <= max,
        utf8_len(s.take(n + 1)) > max,
    ensures
        fit(s, max) == s.take(n),
        utf8_len(s) > max,
    decreases s.len(),
{
    lemma_utf8_len_take(s, n + 1);
    if n == s.len() - 1 {
        assert(s.drop_last() =~= s.take(n));
        assert(fit(s.drop_last(), max) == s.drop_last());
    } else {
        assert(s.drop_last().take(n) =~= s.take(n));
        assert(s.drop_last().take(n + 1) =~= s.take(n + 1));
        lemma_fit(s.drop_last(), max, n);
    }
}

/// How many bytes a character takes in UTF-8.
fn width(c: char) -> (r: usize)
    ensures
        r == encode_scalar(c as u32).len(),
        1 <= r <= 4,
{
    broadcast use vstd::utf8::char_is_scalar;

    let n = c as u32;
    assert(vstd::utf8::is_scalar(c as u32));
    if n <= 0x7f {
        1
    } else if n <= 0x7ff {
        2
    } else if n <= 0xffff {
        3
    } else {
        4
    }
}

/// How many characters of `cs` fit into `max` bytes of UTF-8.
fn fitting(cs: &[char], max: usize) -> (r: usize)
    ensures
        r <= cs@.len(),
        r == cs@.len() ==> utf8_len(cs@) <= max,
        r < cs@.len() ==> utf8_len(cs@) > max,
        fit(cs@, max as nat) == cs@.take(r as int),
{
    let mut total: usize = 0;
    let mut i: usize = 0;
    assert(cs@.take(0) =~= Seq::<char>::empty());
    while i < cs.len()
        invariant
            i <= cs@.len(),
            total <= max,
            total == utf8_len(cs@.take(i as int)),
        decreases cs@.len() - i,
    {
        let w = width(cs[i]);
        proof {
            lemma_encode_push(cs@.take(i as int), cs@[i as int]);
            assert(cs@.take(i as int).push(cs@[i as int]) =~= cs@.take(i + 1));
        }
        if w > max - total {
            proof {
                lemma_fit(cs@, max as nat, i as int);
            }
            return i;
        }
        total += w;
        i += 1;
    }
    assert(cs@.take(cs@.len() as int) =~= cs@);
    i
}

/// How many bytes `s` takes in UTF-8.
pub fn byte_len(s: &str) -> (r: usize)
    ensures
        r == utf8_len(s@),
{
    s.as_bytes().len()
}

/// Whether `s` takes at most `max` bytes in UTF-8.
pub fn fits(s: &str, max: usize) -> (r: bool)
    ensures
        r == (utf8_len(s@) <= max),
{
    let cs = chars_of(s);
    fitting(&cs, max) == cs.len()
}

/// The longest beginning of `s` that takes at most `max` bytes in UTF-8.
pub fn fit_text(s: &str, max: usize) -> (r: String)
    ensures
        r@ == fit(s@, max as nat),
{
    let cs = chars_of(s);
    let n = fitting(&cs, max);
    assert(cs@.subrange(0, n as int) =~= cs@.take(n as int));
    string_between(&cs, 0, n)
}

// ---------------------------------------------------------------------------
// lists

/// One string more is one text more.
pub broadcast proof fn lemma_texts_push(v: Seq<String>, x: String)
    ensures
        #[trigger] texts(v.push(x)) == texts(v).push(x@),
{
    assert(texts(v.push(x)) =~= texts(v).push(x@));
}

/// The parts, with `sep` between each two.
pub fn join(parts: &Vec<String>, sep: &str) -> (r: String)
    ensures
        r@ == joined(texts(parts@), sep@),
{
    let mut out = String::new();
    let ghost ts = texts(parts@);
    assert(ts.take(0) =~= Seq::<Seq<char>>::empty());
    for i in 0..parts.len()
        invariant
            ts == texts(parts@),
            out@ == joined(ts.take(i as int), sep@),
    {
        assert(ts.take(i + 1).drop_last() =~= ts.take(i as int));
        if i > 0 {
            out.append(sep);
        }
        out.append(&parts[i]);
        assert(out@ =~= joined(ts.take(i + 1), sep@));
    }
    assert(ts.take(ts.len() as int) =~= ts);
    out
}

// ---------------------------------------------------------------------------
// laws

/// Trimming takes whitespace off both ends, all of it and nothing else: what is left is
/// a part of the text with only whitespace around it, and neither begins nor ends with
/// any.
pub proof fn law_trimmed_is_the_middle(s: Seq<char>)
    ensures
        exists|from: int, to: int|
            0 <= from <= to <= s.len() && trimmed(s) == #[trigger] s.subrange(from, to) && (
            forall|i: int| 0 <= i < from || to <= i < s.len() ==> white(#[trigger] s[i])),
        trimmed(s).len() > 0 ==> !white(trimmed(s)[0]) && !white(trimmed(s).last()),
{
    law_trim_start(s);
    let a = trim_start_of(s);
    let n = s.len() - a.len();
    law_trim_end(a);
    let b = trim_end_of(a);
    assert(b =~= s.subrange(n, n + b.len()));
    assert forall|i: int| 0 <= i < n || n + b.len() <= i < s.len() implies white(
        #[trigger] s[i],
    ) by {
        if i >= n {
            assert(a[i - n] == s[i]);
        }
    }
    if b.len() > 0 {
        assert(b[0] == a[0]);
    }
    assert(trimmed(s) == s.subrange(n, n + b.len()));
}

/// Trimming the start takes off leading whitespace, all of it and nothing else.
pub proof fn law_trim_start(s: Seq<char>)
    ensures
        trim_start_of(s).len() <= s.len(),
        trim_start_of(s) == s.skip(s.len() - trim_start_of(s).len()),
        forall|i: int|
            0 <= i < s.len() - trim_start_of(s).len() ==> white(#[trigger] s[i]),
        trim_start_of(s).len() > 0 ==> !white(trim_start_of(s)[0]),
    decreases s.len(),
{
    if s.len() > 0 && white(s[0]) {
        let t = s.skip(1);
        law_trim_start(t);
        let r = trim_start_of(t);
        assert(s.skip(s.len() - r.len()) =~= t.skip(t.len() - r.len()));
        assert forall|i: int| 0 <= i < s.len() - r.len() implies white(#[trigger] s[i]) by {
            if i > 0 {
                assert(t[i - 1] == s[i]);
            }
        }
    } else {
        assert(s.skip(0) =~= s);
    }
}

/// Trimming the end takes off trailing whitespace, all of it and nothing else.
pub proof fn law_trim_end(s: Seq<char>)
    ensures
        trim_end_of(s).len() <= s.len(),
        trim_end_of(s) == s.take(trim_end_of(s).len() as int),
        forall|i: int| trim_end_of(s).len() <= i < s.len() ==> white(#[trigger] s[i]),
        trim_end_of(s).len() > 0 ==> !white(trim_end_of(s).last()),
    decreases s.len(),
{
    if s.len() > 0 && white(s.last()) {
        let t = s.drop_last();
        law_trim_end(t);
        let r = trim_end_of(t);
        assert(s.take(r.len() as int) =~= t.take(r.len() as int));
        assert forall|i: int| r.len() <= i < s.len() implies white(#[trigger] s[i]) by {
            if i < t.len() {
                assert(t[i] == s[i]);
            }
        }
    } else {
        assert(s.take(s.len() as int) =~= s);
    }
}

/// What has only whitespace around it, and none at its own ends, is what trimming
/// leaves.
pub proof fn law_trimmed_is_unique(a: Seq<char>, x: Seq<char>, b: Seq<char>)
    requires
        forall|i: int| 0 <= i < a.len() ==> white(#[trigger] a[i]),
        forall|i: int| 0 <= i < b.len() ==> white(#[trigger] b[i]),
        x.len() > 0 ==> !white(x[0]) && !white(x.last()),
    ensures
        trimmed(a + x + b) == x,
{
    let s = a + x + b;
    let n = a.len() as int;
    let m = n + x.len();
    law_trimmed_is_the_middle(s);
    let (from, to) = choose|from: int, to: int|
        0 <= from <= to <= s.len() && trimmed(s) == #[trigger] s.subrange(from, to) && (forall|
            i: int,
        | 0 <= i < from || to <= i < s.len() ==> white(#[trigger] s[i]));
    let t = trimmed(s);
    if x.len() > 0 {
        assert(s[n] == x[0]);
        assert(s[m - 1] == x.last());
        assert(from <= n && m <= to);
        assert(t[0] == s[from] && t.last() == s[to - 1]);
        if from < n {
            assert(s[from] == a[from]);
        }
        if m < to {
            assert(s[to - 1] == b[to - 1 - m]);
        }
        assert(t =~= x);
    } else {
        if t.len() > 0 {
            assert(t[0] == s[from]);
            if from < n {
                assert(s[from] == a[from]);
            } else {
                assert(s[from] == b[from - n]);
            }
        }
        assert(t =~= x);
    }
}

/// A number in decimal is read back: its digits spell it, it has no leading zero, and so
/// no two numbers are written alike.
pub proof fn law_decimal_is_read_back(n: nat)
    ensures
        number(decimal(n)) == n,
        decimal(n).len() > 0,
        forall|i: int| 0 <= i < decimal(n).len() ==> '0' <= #[trigger] decimal(n)[i] <= '9',
        decimal(n)[0] == '0' ==> n == 0 && decimal(n).len() == 1,
    decreases n,
{
    if n >= 10 {
        law_decimal_is_read_back(n / 10);
        let head = decimal(n / 10);
        let all = decimal(n);
        assert(all.drop_last() =~= head);
        assert(all.last() == digit((n % 10) as int));
        assert forall|i: int| 0 <= i < all.len() implies '0' <= #[trigger] all[i] <= '9' by {
            if i < head.len() {
                assert(all[i] == head[i]);
            }
        }
        assert(all[0] == head[0]);
    } else {
        let all = decimal(n);
        assert(all.drop_last() =~= Seq::<char>::empty());
        assert(number(all.drop_last()) == 0);
    }
}

/// Digits count as they do in decimal: each is worth ten times what the one behind it is.
pub proof fn law_digits_count_in_tens(s: Seq<char>, c: char)
    requires
        '0' <= c <= '9',
    ensures
        number(Seq::empty()) == 0,
        number(s.push(c)) == 10 * number(s) + (c as int - '0' as int),
{
    assert(s.push(c).drop_last() =~= s);
}

/// A run of digits is read as the number it spells, with or without a plus sign, as long
/// as it is no larger than it may be; anything else is no number.
pub proof fn law_numbers_are_read(s: Seq<char>, max: nat)
    ensures
        ({
            let plain = s.len() > 0 && forall|i: int|
                0 <= i < s.len() ==> '0' <= #[trigger] s[i] <= '9';
            &&& plain && number(s) <= max ==> unsigned(s, max) == Some(number(s)) && unsigned(
                seq!['+'] + s,
                max,
            ) == Some(number(s))
            &&& plain && number(s) > max ==> unsigned(s, max) is None && unsigned(
                seq!['+'] + s,
                max,
            ) is None
            &&& !plain && (s.len() == 0 || s[0] != '+') ==> unsigned(s, max) is None && unsigned(
                seq!['+'] + s,
                max,
            ) is None
            &&& plain && number(s) <= i64::MAX ==> signed(s) == Some(number(s) as int)
            &&& plain && number(s) <= i64::MAX + 1 ==> signed(seq!['-'] + s) == Some(
                -(number(s) as int),
            )
            &&& plain && number(s) > i64::MAX ==> signed(s) is None
            &&& !plain ==> signed(seq!['-'] + s) is None
        }),
{
    assert((seq!['+'] + s).skip(1) =~= s);
    assert((seq!['-'] + s).skip(1) =~= s);
    assert((seq!['+'] + s)[0] == '+');
    assert((seq!['-'] + s)[0] == '-');
    if s.len() > 0 && s[0] == '+' {
        assert(!is_digit(s[0]));
    }
}

/// Digits at the end of a text are taken off, all of them and nothing else.
pub proof fn law_trim_end_digits(s: Seq<char>)
    ensures
        trim_end_digits_of(s).len() <= s.len(),
        trim_end_digits_of(s) == s.take(trim_end_digits_of(s).len() as int),
        forall|i: int|
            trim_end_digits_of(s).len() <= i < s.len() ==> '0' <= #[trigger] s[i] <= '9',
        trim_end_digits_of(s).len() > 0 ==> !('0' <= trim_end_digits_of(s).last() <= '9'),
    decreases s.len(),
{
    if s.len() > 0 && is_digit(s.last()) {
        let t = s.drop_last();
        law_trim_end_digits(t);
        let r = trim_end_digits_of(t);
        assert(s.take(r.len() as int) =~= t.take(r.len() as int));
        assert forall|i: int| r.len() <= i < s.len() implies '0' <= #[trigger] s[i] <= '9' by {
            if i < t.len() {
                assert(t[i] == s[i]);
            }
        }
    } else {
        assert(s.take(s.len() as int) =~= s);
    }
}

/// A character at the end of a text is taken off as often as it stands there, and nothing
/// else is.
pub proof fn law_trim_end_char(s: Seq<char>, c: char)
    ensures
        trim_end_char(s, c).len() <= s.len(),
        trim_end_char(s, c) == s.take(trim_end_char(s, c).len() as int),
        forall|i: int| trim_end_char(s, c).len() <= i < s.len() ==> #[trigger] s[i] == c,
        trim_end_char(s, c).len() > 0 ==> trim_end_char(s, c).last() != c,
    decreases s.len(),
{
    if s.len() > 0 && s.last() == c {
        let t = s.drop_last();
        law_trim_end_char(t, c);
        let r = trim_end_char(t, c);
        assert(s.take(r.len() as int) =~= t.take(r.len() as int));
        assert forall|i: int| r.len() <= i < s.len() implies #[trigger] s[i] == c by {
            if i < t.len() {
                assert(t[i] == s[i]);
            }
        }
    } else {
        assert(s.take(s.len() as int) =~= s);
    }
}

/// What is found first is the first there is, and what is found last is the last.
pub proof fn law_what_is_found_is_there(s: Seq<char>, pat: Seq<char>, i: int)
    requires
        0 <= i,
        i + pat.len() <= s.len(),
    ensures
        s.subrange(i, i + pat.len()) == pat ==> occurs(s, pat) && find(s, pat) is Some && find(
            s,
            pat,
        )->0 <= i && rfind(s, pat) is Some && i <= rfind(s, pat)->0,
        find(s, pat) == Some(i) ==> s.subrange(i, i + pat.len()) == pat,
        rfind(s, pat) == Some(i) ==> s.subrange(i, i + pat.len()) == pat,
        find(s, pat) is Some ==> 0 <= find(s, pat)->0 && find(s, pat)->0 + pat.len() <= s.len(),
        rfind(s, pat) is Some ==> 0 <= rfind(s, pat)->0 && rfind(s, pat)->0 + pat.len()
            <= s.len(),
        occurs(s, pat) ==> find(s, pat) is Some,
        find(s, pat) is Some ==> occurs(s, pat),
{
    lemma_find_from(s, pat, 0);
    lemma_find_has(s, pat);
    lemma_rfind_from(s, pat, s.len() - pat.len());
    if s.subrange(i, i + pat.len()) == pat {
        assert(occurs_at(s, pat, i));
    }
}

/// A text is cut at the first of a character, and there alone.
pub proof fn law_until_the_first(s: Seq<char>, c: char)
    ensures
        until(s, c).len() <= s.len(),
        until(s, c) == s.take(until(s, c).len() as int),
        !until(s, c).contains(c),
        until(s, c).len() < s.len() ==> s[until(s, c).len() as int] == c,
    decreases s.len(),
{
    if s.len() == 0 || s[0] == c {
        assert(s.take(0) =~= Seq::<char>::empty());
    } else {
        let t = s.skip(1);
        law_until_the_first(t, c);
        let u = until(t, c);
        let r = until(s, c);
        assert(r =~= s.take(r.len() as int)) by {
            assert forall|i: int| 0 <= i < r.len() implies r[i] == s[i] by {
                if i > 0 {
                    assert(r[i] == u[i - 1]);
                    assert(u[i - 1] == t[i - 1]);
                }
            }
        }
        assert forall|i: int| 0 <= i < r.len() implies r[i] != c by {
            if i > 0 {
                assert(r[i] == u[i - 1]);
                assert(u.contains(u[i - 1]));
            }
        }
        if r.len() < s.len() {
            assert(t[u.len() as int] == s[r.len() as int]);
        }
    }
}

/// Texts are joined one after the other, with the separator between each two and nowhere
/// else.
pub proof fn law_joined_in_order(parts: Seq<Seq<char>>, x: Seq<char>, sep: Seq<char>)
    ensures
        joined(Seq::empty(), sep) == Seq::<char>::empty(),
        joined(seq![x], sep) == x,
        parts.len() > 0 ==> joined(parts.push(x), sep) == joined(parts, sep) + sep + x,
{
    reveal_with_fuel(joined, 2);
    assert(parts.push(x).drop_last() =~= parts);
    assert(seq![x].drop_last() =~= Seq::<Seq<char>>::empty());
    assert(joined(seq![x], sep) =~= x);
}

/// Letters are put in lower case, and a character in the place of another, one for one.
pub proof fn law_characters_are_changed_one_for_one(s: Seq<char>, from: char, to: char)
    ensures
        lowered(s).len() == s.len(),
        forall|i: int|
            0 <= i < s.len() ==> #[trigger] lowered(s)[i] == (if 'A' <= s[i] <= 'Z' {
                (s[i] as int + ('a' as int - 'A' as int)) as char
            } else {
                s[i]
            }),
        replaced(s, from, to).len() == s.len(),
        forall|i: int|
            0 <= i < s.len() ==> #[trigger] replaced(s, from, to)[i] == (if s[i] == from {
                to
            } else {
                s[i]
            }),
{
}

/// What fits is the beginning of the text, no longer than it may be and no shorter than
/// it need be.
pub proof fn law_what_fits_is_as_long_as_may_be(s: Seq<char>, max: nat)
    ensures
        fit(s, max).len() <= s.len(),
        fit(s, max) == s.take(fit(s, max).len() as int),
        encode_utf8(fit(s, max)).len() <= max || fit(s, max).len() == 0,
        fit(s, max).len() < s.len() ==> encode_utf8(s.take(fit(s, max).len() as int + 1)).len()
            > max,
    decreases s.len(),
{
    if utf8_len(s) <= max || s.len() == 0 {
        assert(s.take(s.len() as int) =~= s);
    } else {
        let t = s.drop_last();
        law_what_fits_is_as_long_as_may_be(t, max);
        let n = fit(t, max).len() as int;
        assert(s.take(n) =~= t.take(n));
        if n < t.len() {
            assert(s.take(n + 1) =~= t.take(n + 1));
        } else {
            assert(s.take(n + 1) =~= s);
        }
    }
}

/// The digits of a byte are worth what it is: the first is worth sixteen times the
/// second, and each of ten and more is a letter.
pub proof fn law_hex_has_two_digits_each(bytes: Seq<u8>, i: int)
    requires
        0 <= i < bytes.len(),
    ensures
        hex(bytes).len() == 2 * bytes.len(),
        hex(bytes)[2 * i] == nibble(bytes[i] / 16),
        hex(bytes)[2 * i + 1] == nibble(bytes[i] % 16),
{
    reveal_strlit("0123456789abcdef");
    lemma_nibble(bytes[i] / 16);
    lemma_nibble(bytes[i] % 16);
    assert((2 * i) / 2 == i && (2 * i) % 2 == 0);
    assert((2 * i + 1) / 2 == i && (2 * i + 1) % 2 == 1);
}

proof fn lemma_nibble(d: u8)
    requires
        d < 16,
    ensures
        nibble(d) == hex_digit(d as int),
{
    reveal_strlit("0123456789abcdef");
    let s = "0123456789abcdef"@;
    assert(s[0] == '0' && s[1] == '1' && s[2] == '2' && s[3] == '3' && s[4] == '4' && s[5] == '5');
    assert(s[6] == '6' && s[7] == '7' && s[8] == '8' && s[9] == '9' && s[10] == 'a' && s[11] == 'b');
    assert(s[12] == 'c' && s[13] == 'd' && s[14] == 'e' && s[15] == 'f');
    assert(d == 0 || d == 1 || d == 2 || d == 3 || d == 4 || d == 5 || d == 6 || d == 7 || d == 8
        || d == 9 || d == 10 || d == 11 || d == 12 || d == 13 || d == 14 || d == 15);
}

/// A hexadecimal digit.
pub open spec fn nibble(d: u8) -> char {
    "0123456789abcdef"@[d as int]
}

/// Whitespace is what Unicode calls so: the line and paragraph breaks, the tabs and the
/// spaces of every width, and nothing else. No letter, digit or ASCII mark is.
pub proof fn law_what_is_whitespace(c: char)
    ensures
        white(c) <==> ({
            let n = c as int;
            ||| 0x9 <= n <= 0xd
            ||| n == 0x20
            ||| n == 0x85
            ||| n == 0xa0
            ||| n == 0x1680
            ||| 0x2000 <= n <= 0x200a
            ||| n == 0x2028
            ||| n == 0x2029
            ||| n == 0x202f
            ||| n == 0x205f
            ||| n == 0x3000
        }),
        '!' <= c <= '~' ==> !white(c),
{
}

} // verus!
