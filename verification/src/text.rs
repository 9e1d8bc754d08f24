//! Text as sequences of characters: trimming, splitting, decimal numerals.

use vstd::prelude::*;

verus! {

/// `String::push` appends one character at the end of the string.
pub assume_specification[ String::push ](s: &mut String, c: char)
    ensures
        final(s)@ == old(s)@.push(c),
;

/// The character sequences of a list of strings.
pub open spec fn lines_of(v: Seq<String>) -> Seq<Seq<char>> {
    v.map_values(|s: String| s@)
}

/// The character sequences of a list of character vectors.
pub open spec fn rows_of(v: Seq<Vec<char>>) -> Seq<Seq<char>> {
    v.map_values(|r: Vec<char>| r@)
}

/// The characters of `s`, in order.
pub fn chars_of(s: &str) -> (v: Vec<char>)
    ensures
        v@ == s@,
{
    let mut v: Vec<char> = Vec::new();
    for c in it: s.chars()
        invariant
            v@ == it.seq().take(it.index() as int),
            it.seq() == s@,
    {
        v.push(c);
    }
    v
}

/// The string made of `chars`.
pub fn string_of(chars: &[char]) -> (s: String)
    ensures
        s@ == chars@,
{
    let mut s = String::new();
    let n = chars.len();
    for i in 0..n
        invariant
            n == chars@.len(),
            s@ == chars@.take(i as int),
    {
        s.push(chars[i]);
    }
    s
}

/// Whether `chars` spells `word`.
pub fn spells(chars: &[char], word: &str) -> (r: bool)
    ensures
        r == (chars@ == word@),
{
    let w = chars_of(word);
    same_chars(chars, &w)
}

/// Whether two character slices are equal.
pub fn same_chars(a: &[char], b: &[char]) -> (r: bool)
    ensures
        r == (a@ == b@),
{
    if a.len() != b.len() {
        return false;
    }
    let n = a.len();
    for i in 0..n
        invariant
            n == a@.len(),
            n == b@.len(),
            forall|j: int| 0 <= j < i ==> a@[j] == b@[j],
    {
        if a[i] != b[i] {
            assert(a@[i as int] != b@[i as int]);
            return false;
        }
    }
    assert(a@ =~= b@);
    true
}

/// Whether a text has any character.
pub fn has_text(s: &str) -> (r: bool)
    ensures
        r == (s@.len() > 0),
{
    chars_of(s).len() > 0
}

/// The part of `s` from character `from` up to and without character `to`.
pub fn part_of(s: &[char], from: usize, to: usize) -> (v: Vec<char>)
    requires
        from <= to <= s@.len(),
    ensures
        v@ == s@.subrange(from as int, to as int),
{
    let mut v: Vec<char> = Vec::new();
    for i in from..to
        invariant
            from <= to <= s@.len(),
            v@ == s@.subrange(from as int, i as int),
    {
        v.push(s[i]);
        assert(v@ =~= s@.subrange(from as int, i + 1));
    }
    v
}

/// A copy of `s`.
pub fn copy_chars(s: &[char]) -> (v: Vec<char>)
    ensures
        v@ == s@,
{
    part_of(s, 0, s.len())
}

/// Whether `s` starts with `prefix`.
pub fn starts_with(s: &[char], prefix: &str) -> (r: bool)
    ensures
        r == prefix@.is_prefix_of(s@),
{
    let p = chars_of(prefix);
    if p.len() > s.len() {
        return false;
    }
    let head = part_of(s, 0, p.len());
    let r = same_chars(&head, &p);
    proof {
        if r {
            assert(s@.subrange(0, p@.len() as int) == p@);
        }
    }
    r
}

/// The position of the first `c` in `s`.
pub open spec fn first_at(s: Seq<char>, c: char) -> Option<int>
    decreases s.len(),
{
    if s.len() == 0 {
        None
    } else {
        match first_at(s.drop_last(), c) {
            Some(i) => Some(i),
            None => if s.last() == c {
                Some(s.len() - 1)
            } else {
                None
            },
        }
    }
}

/// The position of the first `c` in `s`, where there is one.
pub fn find_char(s: &[char], c: char) -> (r: Option<usize>)
    ensures
        match r {
            Some(i) => first_at(s@, c) == Some(i as int) && i < s@.len() && s@[i as int] == c,
            None => first_at(s@, c) is None,
        },
{
    let n = s.len();
    for i in 0..n
        invariant
            n == s@.len(),
            first_at(s@.take(i as int), c) is None,
    {
        assert(s@.take(i + 1).drop_last() =~= s@.take(i as int));
        if s[i] == c {
            proof {
                lemma_first_at_prefix(s@, c, i + 1);
            }
            return Some(i);
        }
    }
    assert(s@.take(n as int) =~= s@);
    None
}

proof fn lemma_first_at_prefix(s: Seq<char>, c: char, k: int)
    requires
        0 <= k <= s.len(),
        first_at(s.take(k), c) is Some,
    ensures
        first_at(s, c) == first_at(s.take(k), c),
    decreases s.len() - k,
{
    if k == s.len() {
        assert(s.take(k) =~= s);
    } else {
        assert(s.take(k + 1).drop_last() =~= s.take(k));
        lemma_first_at_prefix(s, c, k + 1);
    }
}

/// What `first_at` finds is the first: it holds `c`, and nothing before it does.
pub proof fn lemma_first_at(s: Seq<char>, c: char)
    ensures
        match first_at(s, c) {
            Some(i) => 0 <= i < s.len() && s[i] == c && forall|j: int|
                0 <= j < i ==> s[j] != c,
            None => !s.contains(c),
        },
    decreases s.len(),
{
    if s.len() > 0 {
        lemma_first_at(s.drop_last(), c);
        match first_at(s.drop_last(), c) {
            Some(i) => {
                assert forall|j: int| 0 <= j < i implies s[j] != c by {
                    assert(s.drop_last()[j] == s[j]);
                }
            },
            None => {
                assert forall|j: int| 0 <= j < s.len() - 1 implies s[j] != c by {
                    assert(s.drop_last()[j] == s[j]);
                    assert(s.drop_last().contains(s.drop_last()[j]));
                }
            },
        }
    }
}

/// Whether `c` has Unicode's White_Space property.
pub open spec fn is_space(c: char) -> bool {
    ||| '\u{9}' <= c <= '\u{d}'
    ||| c == ' '
    ||| c == '\u{85}'
    ||| c == '\u{a0}'
    ||| c == '\u{1680}'
    ||| '\u{2000}' <= c <= '\u{200a}'
    ||| c == '\u{2028}'
    ||| c == '\u{2029}'
    ||| c == '\u{202f}'
    ||| c == '\u{205f}'
    ||| c == '\u{3000}'
}

fn space(c: char) -> (r: bool)
    ensures
        r == is_space(c),
{
    ('\u{9}' <= c && c <= '\u{d}') || c == ' ' || c == '\u{85}' || c == '\u{a0}' || c == '\u{1680}'
        || ('\u{2000}' <= c && c <= '\u{200a}') || c == '\u{2028}' || c == '\u{2029}' || c
        == '\u{202f}' || c == '\u{205f}' || c == '\u{3000}'
}

/// `s` without its leading white space.
pub open spec fn trimmed_start(s: Seq<char>) -> Seq<char>
    decreases s.len(),
{
    if s.len() > 0 && is_space(s[0]) {
        trimmed_start(s.drop_first())
    } else {
        s
    }
}

/// `s` without its trailing white space.
pub open spec fn trimmed_end(s: Seq<char>) -> Seq<char>
    decreases s.len(),
{
    if s.len() > 0 && is_space(s.last()) {
        trimmed_end(s.drop_last())
    } else {
        s
    }
}

/// `s` without its leading and trailing white space.
pub open spec fn trimmed(s: Seq<char>) -> Seq<char> {
    trimmed_end(trimmed_start(s))
}

/// `s` without its leading and trailing white space.
pub fn trim(s: &[char]) -> (v: Vec<char>)
    ensures
        v@ == trimmed(s@),
{
    let mut from: usize = 0;
    assert(s@.skip(0) =~= s@);
    while from < s.len() && space(s[from])
        invariant
            from <= s@.len(),
            trimmed_start(s@.skip(from as int)) == trimmed_start(s@),
        decreases s@.len() - from,
    {
        assert(s@.skip(from as int).drop_first() =~= s@.skip(from + 1));
        from = from + 1;
    }
    let ghost body = s@.skip(from as int);
    assert(trimmed_start(s@) == body);
    let mut to: usize = s.len();
    assert(s@.subrange(from as int, to as int) =~= body);
    while to > from && space(s[to - 1])
        invariant
            from <= to <= s@.len(),
            trimmed_end(s@.subrange(from as int, to as int)) == trimmed_end(body),
        decreases to,
    {
        assert(s@.subrange(from as int, to as int).drop_last() =~= s@.subrange(
            from as int,
            to - 1,
        ));
        to = to - 1;
    }
    part_of(s, from, to)
}

/// Trimming takes nothing from a text that neither starts nor ends with white space.
pub proof fn lemma_trimmed_is_trimmed(s: Seq<char>)
    ensures
        trimmed(s).len() > 0 ==> !is_space(trimmed(s)[0]) && !is_space(trimmed(s).last()),
        trimmed(trimmed(s)) == trimmed(s),
{
    lemma_trimmed_start(s);
    lemma_trimmed_end(trimmed_start(s));
}

proof fn lemma_trimmed_start(s: Seq<char>)
    ensures
        trimmed_start(s).len() > 0 ==> !is_space(trimmed_start(s)[0]),
    decreases s.len(),
{
    if s.len() > 0 && is_space(s[0]) {
        lemma_trimmed_start(s.drop_first());
    }
}

proof fn lemma_trimmed_end(s: Seq<char>)
    ensures
        trimmed_end(s).len() > 0 ==> !is_space(trimmed_end(s).last()) && trimmed_end(s)[0] == s[0],
        trimmed_end(s).len() <= s.len(),
    decreases s.len(),
{
    if s.len() > 0 && is_space(s.last()) {
        lemma_trimmed_end(s.drop_last());
    }
}

/// The digit character of `d`.
pub open spec fn digit_char(d: int) -> char {
    (48 + d) as char
}

/// The decimal numeral of `n`.
pub open spec fn decimal(n: nat) -> Seq<char>
    decreases n,
{
    if n < 10 {
        seq![digit_char(n as int)]
    } else {
        decimal(n / 10).push(digit_char((n % 10) as int))
    }
}

fn digit(d: u8) -> (c: char)
    requires
        d < 10,
    ensures
        c == digit_char(d as int),
{
    (48 + d) as char
}

/// The decimal numeral of `n`.
pub fn decimal_of(n: u128) -> (s: String)
    ensures
        s@ == decimal(n as nat),
    decreases n,
{
    let last = digit((n % 10) as u8);
    if n < 10 {
        let mut s = String::new();
        s.push(last);
        assert(s@ =~= seq![digit_char(n as int)]);
        s
    } else {
        let mut s = decimal_of(n / 10);
        s.push(last);
        s
    }
}

/// Whether `c` is one of the ten decimal digits.
pub open spec fn is_digit(c: char) -> bool {
    '0' <= c <= '9'
}

/// The value of the digit `c`.
pub open spec fn digit_value(c: char) -> int {
    c as int - 48
}

/// The value of the numeral `s`, read as decimal digits.
pub open spec fn numeral_value(s: Seq<char>) -> int
    decreases s.len(),
{
    if s.len() == 0 {
        0
    } else {
        numeral_value(s.drop_last()) * 10 + digit_value(s.last())
    }
}

/// Why a text is not an unsigned whole number.
#[derive(Debug, Clone, Copy, PartialEq, Eq, Structural)]
pub enum WholeError {
    Empty,
    InvalidDigit,
    TooLarge,
}

impl WholeError {
    /// The words that describe the error.
    pub open spec fn words(self) -> Seq<char> {
        match self {
            WholeError::Empty => "cannot parse integer from empty string"@,
            WholeError::InvalidDigit => "invalid digit found in string"@,
            WholeError::TooLarge => "number too large to fit in target type"@,
        }
    }

    /// The words that describe the error.
    pub fn message(&self) -> (s: &'static str)
        ensures
            s@ == self.words(),
    {
        match self {
            WholeError::Empty => "cannot parse integer from empty string",
            WholeError::InvalidDigit => "invalid digit found in string",
            WholeError::TooLarge => "number too large to fit in target type",
        }
    }
}

/// The digits of a numeral: what follows an optional leading `+`. A sign alone has none.
pub open spec fn unsigned_digits(s: Seq<char>) -> Seq<char> {
    if s.len() > 1 && s[0] == '+' {
        s.drop_first()
    } else {
        s
    }
}

/// `digits` read from the left: the first character that is no digit, or that takes the value
/// over the limit, decides the error.
pub open spec fn read_digits(digits: Seq<char>) -> Result<u32, WholeError>
    decreases digits.len(),
{
    if digits.len() == 0 {
        Ok(0)
    } else {
        match read_digits(digits.drop_last()) {
            Err(e) => Err(e),
            Ok(v) => {
                if !is_digit(digits.last()) {
                    Err(WholeError::InvalidDigit)
                } else if v * 10 + digit_value(digits.last()) > u32::MAX {
                    Err(WholeError::TooLarge)
                } else {
                    Ok((v * 10 + digit_value(digits.last())) as u32)
                }
            },
        }
    }
}

/// What the text `s` reads as, taken for an unsigned whole number.
pub open spec fn read_whole(s: Seq<char>) -> Result<u32, WholeError> {
    if s.len() == 0 {
        Err(WholeError::Empty)
    } else {
        read_digits(unsigned_digits(s))
    }
}

proof fn lemma_read_digits_error(s: Seq<char>, k: int)
    requires
        0 <= k <= s.len(),
        read_digits(s.take(k)) is Err,
    ensures
        read_digits(s) == read_digits(s.take(k)),
    decreases s.len() - k,
{
    if k == s.len() {
        assert(s.take(k) =~= s);
    } else {
        assert(s.take(k + 1).drop_last() =~= s.take(k));
        lemma_read_digits_error(s, k + 1);
    }
}

/// Read `s` as an unsigned whole number of at most 32 bits.
pub fn parse_whole(s: &[char]) -> (r: Result<u32, WholeError>)
    ensures
        r == read_whole(s@),
{
    if s.len() == 0 {
        return Err(WholeError::Empty);
    }
    let from: usize = if s.len() > 1 && s[0] == '+' {
        1
    } else {
        0
    };
    let ghost digits = unsigned_digits(s@);
    assert(digits =~= s@.skip(from as int));
    let n = s.len();
    let mut v: u32 = 0;
    let mut i: usize = from;
    assert(digits.take(0) =~= Seq::<char>::empty());
    while i < n
        invariant
            n == s@.len(),
            from <= i <= n,
            s@.len() > 0,
            digits == unsigned_digits(s@),
            digits == s@.skip(from as int),
            read_digits(digits.take(i - from)) == Ok::<u32, WholeError>(v),
        decreases n - i,
    {
        let c = s[i];
        assert(digits.take(i + 1 - from).drop_last() =~= digits.take(i - from));
        assert(digits.take(i + 1 - from).last() == c);
        if !(c >= '0' && c <= '9') {
            proof {
                lemma_read_digits_error(digits, i + 1 - from);
            }
            return Err(WholeError::InvalidDigit);
        }
        let wide: u64 = v as u64 * 10 + (c as u32 - 48) as u64;
        if wide > u32::MAX as u64 {
            proof {
                lemma_read_digits_error(digits, i + 1 - from);
            }
            return Err(WholeError::TooLarge);
        }
        v = wide as u32;
        i = i + 1;
    }
    assert(digits.take(n - from) =~= digits);
    Ok(v)
}

/// A text of digits alone reads as the number that it denotes, as long as that fits.
pub proof fn lemma_whole_reads_its_value(s: Seq<char>)
    requires
        s.len() > 0,
        forall|i: int| 0 <= i < s.len() ==> is_digit(#[trigger] s[i]),
    ensures
        numeral_value(s) >= 0,
        numeral_value(s) <= u32::MAX ==> read_whole(s) == Ok::<u32, WholeError>(
            numeral_value(s) as u32,
        ),
        numeral_value(s) > u32::MAX ==> read_whole(s) == Err::<u32, WholeError>(
            WholeError::TooLarge,
        ),
{
    assert(is_digit(s[0]));
    lemma_digits_read_their_value(s);
}

proof fn lemma_digits_read_their_value(s: Seq<char>)
    requires
        forall|i: int| 0 <= i < s.len() ==> is_digit(#[trigger] s[i]),
    ensures
        numeral_value(s) >= 0,
        numeral_value(s) <= u32::MAX ==> read_digits(s) == Ok::<u32, WholeError>(
            numeral_value(s) as u32,
        ),
        numeral_value(s) > u32::MAX ==> read_digits(s) == Err::<u32, WholeError>(
            WholeError::TooLarge,
        ),
    decreases s.len(),
{
    if s.len() > 0 {
        assert forall|i: int| 0 <= i < s.drop_last().len() implies is_digit(
            #[trigger] s.drop_last()[i],
        ) by {
            assert(is_digit(s[i]));
        }
        lemma_digits_read_their_value(s.drop_last());
        assert(is_digit(s[s.len() - 1]));
    }
}

/// The decimal numeral of a number reads back as that number.
pub proof fn lemma_decimal_reads_back(n: u32)
    ensures
        read_whole(decimal(n as nat)) == Ok::<u32, WholeError>(n),
{
    lemma_decimal_digits(n as nat);
    lemma_whole_reads_its_value(decimal(n as nat));
}

proof fn lemma_decimal_digits(n: nat)
    ensures
        decimal(n).len() > 0,
        forall|i: int| 0 <= i < decimal(n).len() ==> is_digit(#[trigger] decimal(n)[i]),
        numeral_value(decimal(n)) == n,
    decreases n,
{
    if n < 10 {
        reveal_with_fuel(numeral_value, 2);
        assert(decimal(n).drop_last() =~= Seq::<char>::empty());
    } else {
        lemma_decimal_digits(n / 10);
        assert(decimal(n).drop_last() =~= decimal(n / 10));
        assert forall|i: int| 0 <= i < decimal(n).len() implies is_digit(
            #[trigger] decimal(n)[i],
        ) by {
            if i < decimal(n / 10).len() {
                assert(is_digit(decimal(n / 10)[i]));
            }
        }
    }
}

/// Whether `a` comes before `b` in the order of a dictionary, character by character.
pub open spec fn comes_before(a: Seq<char>, b: Seq<char>) -> bool
    decreases a.len(),
{
    if b.len() == 0 {
        false
    } else if a.len() == 0 {
        true
    } else if a[0] != b[0] {
        a[0] < b[0]
    } else {
        comes_before(a.drop_first(), b.drop_first())
    }
}

/// Whether each text comes no later than those behind it.
pub open spec fn in_order(v: Seq<Seq<char>>) -> bool {
    forall|i: int, j: int| 0 <= i < j < v.len() ==> !comes_before(#[trigger] v[j], #[trigger] v[i])
}

/// Of two different texts one comes before the other.
pub proof fn lemma_order_is_total(a: Seq<char>, b: Seq<char>)
    ensures
        !(comes_before(a, b) && comes_before(b, a)),
        a != b ==> comes_before(a, b) || comes_before(b, a),
        a == b ==> !comes_before(a, b),
    decreases a.len(),
{
    if a.len() > 0 && b.len() > 0 && a[0] == b[0] {
        lemma_order_is_total(a.drop_first(), b.drop_first());
        if a.drop_first() == b.drop_first() {
            assert(a =~= seq![a[0]] + a.drop_first());
            assert(b =~= seq![b[0]] + b.drop_first());
        }
    } else if a.len() == 0 && b.len() == 0 {
        assert(a =~= b);
    }
}

/// A text before another is before all that comes after that.
pub proof fn lemma_order_is_transitive(a: Seq<char>, b: Seq<char>, c: Seq<char>)
    requires
        comes_before(a, b),
        comes_before(b, c),
    ensures
        comes_before(a, c),
    decreases a.len(),
{
    if a.len() > 0 && a[0] == b[0] && b[0] == c[0] {
        lemma_order_is_transitive(a.drop_first(), b.drop_first(), c.drop_first());
    }
}

/// Whether `a` comes before `b` in the order of a dictionary.
pub fn is_before(a: &[char], b: &[char]) -> (r: bool)
    ensures
        r == comes_before(a@, b@),
{
    let mut i: usize = 0;
    assert(a@.skip(0) =~= a@);
    assert(b@.skip(0) =~= b@);
    while i < a.len() && i < b.len()
        invariant
            i <= a@.len(),
            i <= b@.len(),
            comes_before(a@, b@) == comes_before(a@.skip(i as int), b@.skip(i as int)),
        decreases a@.len() - i,
    {
        if a[i] != b[i] {
            return a[i] < b[i];
        }
        assert(a@.skip(i as int).drop_first() =~= a@.skip(i + 1));
        assert(b@.skip(i as int).drop_first() =~= b@.skip(i + 1));
        i = i + 1;
    }
    i < b.len()
}

/// Trimming leaves the stretch of a text from its first to its last character that is no white
/// space; what it takes off is white space.
pub proof fn lemma_what_trimming_takes_off(s: Seq<char>)
    ensures
        exists|from: int, to: int| #[trigger] trims_to(s, from, to) && trimmed(s) == s.subrange(from, to),
{
    let from = lemma_space_in_front(s);
    let rest = trimmed_start(s);
    let to = lemma_space_behind(rest);
    assert forall|i: int| from + to <= i < s.len() implies is_space(#[trigger] s[i]) by {
        assert(s[i] == rest[i - from]);
    }
    assert(rest.take(to) =~= s.subrange(from, from + to));
    assert(trims_to(s, from, from + to));
}

/// All before `from` and from `to` on is white space, and the ends in between are not.
pub open spec fn trims_to(s: Seq<char>, from: int, to: int) -> bool {
    &&& 0 <= from <= to <= s.len()
    &&& forall|i: int| 0 <= i < from ==> is_space(#[trigger] s[i])
    &&& forall|i: int| to <= i < s.len() ==> is_space(#[trigger] s[i])
    &&& from < to ==> !is_space(s[from]) && !is_space(s[to - 1])
}

proof fn lemma_space_in_front(s: Seq<char>) -> (from: int)
    ensures
        0 <= from <= s.len(),
        trimmed_start(s) == s.skip(from),
        forall|i: int| 0 <= i < from ==> is_space(#[trigger] s[i]),
        from < s.len() ==> !is_space(s[from]),
    decreases s.len(),
{
    if s.len() > 0 && is_space(s[0]) {
        let k = lemma_space_in_front(s.drop_first());
        assert(s.drop_first().skip(k) =~= s.skip(k + 1));
        assert forall|i: int| 0 <= i < k + 1 implies is_space(#[trigger] s[i]) by {
            if i > 0 {
                assert(s[i] == s.drop_first()[i - 1]);
            }
        }
        k + 1
    } else {
        assert(s.skip(0) =~= s);
        0
    }
}

proof fn lemma_space_behind(s: Seq<char>) -> (to: int)
    ensures
        0 <= to <= s.len(),
        trimmed_end(s) == s.take(to),
        forall|i: int| to <= i < s.len() ==> is_space(#[trigger] s[i]),
        to > 0 ==> !is_space(s[to - 1]),
    decreases s.len(),
{
    if s.len() > 0 && is_space(s.last()) {
        let k = lemma_space_behind(s.drop_last());
        assert(s.drop_last().take(k) =~= s.take(k));
        assert forall|i: int| k <= i < s.len() implies is_space(#[trigger] s[i]) by {
            if i < s.len() - 1 {
                assert(s[i] == s.drop_last()[i]);
            }
        }
        k
    } else {
        assert(s.take(s.len() as int) =~= s);
        s.len() as int
    }
}

/// Blanks, tabs and line ends are white space; what shows on the screen as a character of ASCII is
/// not.
pub proof fn lemma_what_is_space(c: char)
    ensures
        is_space(' ') && is_space('\t') && is_space('\n') && is_space('\r'),
        '!' <= c <= '~' ==> !is_space(c),
{
}

/// The numeral of a number below ten is its digit; that of a greater one is the numeral of its tens
/// with the digit of what is left behind it.
pub proof fn lemma_numerals(n: nat)
    ensures
        n < 10 ==> decimal(n) == seq![(48 + n) as char],
        n >= 10 ==> decimal(n) == decimal(n / 10).push((48 + n % 10) as char),
        digit_value('0') == 0 && digit_value('7') == 7 && digit_value('9') == 9,
{
}

/// The value of a numeral with one more digit is ten times as much and the digit.
pub proof fn lemma_value_of_numerals(s: Seq<char>, c: char)
    ensures
        numeral_value(s.push(c)) == numeral_value(s) * 10 + (c as int - '0' as int),
        numeral_value(Seq::empty()) == 0,
        is_digit(c) <==> '0' <= c <= '9',
{
    assert(s.push(c).drop_last() =~= s);
}

/// What does not read as a number: nothing at all; a text whose first character that is no digit
/// comes before the number gets too large. A sign in front counts for nothing where more follows.
pub proof fn lemma_what_does_not_read(s: Seq<char>, k: int)
    ensures
        read_whole(Seq::empty()) == Err::<u32, WholeError>(WholeError::Empty),
        s.len() > 0 && s[0] != '+' ==> read_whole(seq!['+'] + s) == read_whole(s),
        read_whole(seq!['+']) == Err::<u32, WholeError>(WholeError::InvalidDigit),
        0 <= k < s.len() && s[0] != '+' && (forall|i: int|
            0 <= i < k ==> '0' <= #[trigger] s[i] <= '9') && !('0' <= s[k] <= '9') && numeral_value(
            s.take(k),
        ) <= u32::MAX ==> read_whole(s) == Err::<u32, WholeError>(WholeError::InvalidDigit),
{
    if s.len() > 0 {
        assert((seq!['+'] + s).drop_first() =~= s);
    }
    let plus = seq!['+'];
    assert(plus.drop_last() =~= Seq::<char>::empty());
    assert(read_digits(plus.drop_last()) == Ok::<u32, WholeError>(0));
    if 0 <= k < s.len() && s[0] != '+' && (forall|i: int|
        0 <= i < k ==> '0' <= #[trigger] s[i] <= '9') && !('0' <= s[k] <= '9') && numeral_value(
        s.take(k),
    ) <= u32::MAX {
        let head = s.take(k);
        assert forall|i: int| 0 <= i < head.len() implies is_digit(#[trigger] head[i]) by {
            assert('0' <= s[i] <= '9');
        }
        lemma_digits_read_their_value(head);
        assert(s.take(k + 1).drop_last() =~= head);
        assert(s.take(k + 1).last() == s[k]);
        lemma_read_digits_error(s, k + 1);
    }
}

/// One text comes before another where it has the smaller character at the first place at which they
/// differ, or ends there.
pub proof fn lemma_order_by_first_difference(a: Seq<char>, b: Seq<char>, i: int)
    requires
        0 <= i <= a.len(),
        i <= b.len(),
        forall|j: int| 0 <= j < i ==> #[trigger] a[j] == b[j],
    ensures
        i < a.len() && i < b.len() && a[i] < b[i] ==> comes_before(a, b),
        i == a.len() && i < b.len() ==> comes_before(a, b),
        i < a.len() && i < b.len() && b[i] < a[i] ==> !comes_before(a, b),
        i == b.len() ==> !comes_before(a, b),
    decreases i,
{
    if i > 0 {
        assert(a[0] == b[0]);
        let (c, d) = (a.drop_first(), b.drop_first());
        assert forall|j: int| 0 <= j < i - 1 implies #[trigger] c[j] == d[j] by {
            assert(a[j + 1] == b[j + 1]);
        }
        lemma_order_by_first_difference(c, d, i - 1);
        if i < a.len() {
            assert(a[i] == c[i - 1]);
        }
        if i < b.len() {
            assert(b[i] == d[i - 1]);
        }
    }
}

/// The words for each error.
pub proof fn lemma_words_of_whole_errors()
    ensures
        WholeError::Empty.words() == "cannot parse integer from empty string"@,
        WholeError::InvalidDigit.words() == "invalid digit found in string"@,
        WholeError::TooLarge.words() == "number too large to fit in target type"@,
{
}

} // verus!
