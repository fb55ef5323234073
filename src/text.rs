//! Characters, trimming, splitting and decimal integers, on sequences of characters.
use vstd::prelude::*;

verus! {

broadcast use vstd::string::group_string_axioms;

/// The characters of Unicode's `White_Space` property, which `char::is_whitespace` and
/// `str::trim` use.
pub open spec fn is_whitespace_char(c: char) -> bool {
    let u = c as u32;
    (0x09 <= u <= 0x0d) || u == 0x20 || u == 0x85 || u == 0xa0 || u == 0x1680 || (0x2000 <= u
        <= 0x200a) || u == 0x2028 || u == 0x2029 || u == 0x202f || u == 0x205f || u == 0x3000
}

pub open spec fn is_ascii_digit(c: char) -> bool {
    '0' <= c <= '9'
}

pub open spec fn digit_value(c: char) -> int {
    (c as u32) - ('0' as u32)
}

/// `s` without its leading whitespace.
pub open spec fn trim_start(s: Seq<char>) -> Seq<char>
    decreases s.len(),
{
    if s.len() > 0 && is_whitespace_char(s[0]) {
        trim_start(s.drop_first())
    } else {
        s
    }
}

/// `s` without its trailing whitespace.
pub open spec fn trim_end(s: Seq<char>) -> Seq<char>
    decreases s.len(),
{
    if s.len() > 0 && is_whitespace_char(s.last()) {
        trim_end(s.drop_last())
    } else {
        s
    }
}

/// `s` without its leading and trailing whitespace.
pub open spec fn trim(s: Seq<char>) -> Seq<char> {
    trim_end(trim_start(s))
}

/// The pieces of `s` between the occurrences of `sep`: one more than there are occurrences.
pub open spec fn split(s: Seq<char>, sep: char) -> Seq<Seq<char>>
    decreases s.len(),
{
    if s.len() == 0 {
        seq![Seq::empty()]
    } else {
        let init = split(s.drop_last(), sep);
        if s.last() == sep {
            init.push(Seq::empty())
        } else {
            init.update(init.len() - 1, init.last().push(s.last()))
        }
    }
}

/// Whether `i` is the index of the first occurrence of `sep` in `s`.
pub open spec fn is_first_index_of(s: Seq<char>, sep: char, i: int) -> bool {
    &&& 0 <= i < s.len()
    &&& s[i] == sep
    &&& forall|j: int| 0 <= j < i ==> s[j] != sep
}

pub open spec fn contains_char(s: Seq<char>, c: char) -> bool {
    exists|j: int| 0 <= j < s.len() && s[j] == c
}

/// The length of the longest prefix of `s` made of ASCII digits.
pub open spec fn digit_prefix_len(s: Seq<char>) -> nat
    decreases s.len(),
{
    if s.len() > 0 && is_ascii_digit(s[0]) {
        1 + digit_prefix_len(s.drop_first())
    } else {
        0
    }
}

/// The number that the ASCII digits `s` write in base ten.
pub open spec fn decimal_value(s: Seq<char>) -> nat
    decreases s.len(),
{
    if s.len() == 0 {
        0
    } else {
        (decimal_value(s.drop_last()) * 10 + digit_value(s.last())) as nat
    }
}

/// Why a string is not an integer of a given type; these are the kinds of std's
/// `ParseIntError`.
#[derive(Debug, Clone, Copy, PartialEq, Eq, Structural)]
pub enum IntErrorKind {
    Empty,
    InvalidDigit,
    PosOverflow,
    NegOverflow,
}

impl IntErrorKind {
    /// The text that std shows for a `ParseIntError` of this kind.
    pub fn message(&self) -> (r: &'static str)
        ensures
            *self == IntErrorKind::Empty ==> r@ == "cannot parse integer from empty string"@,
            *self == IntErrorKind::InvalidDigit ==> r@ == "invalid digit found in string"@,
            *self == IntErrorKind::PosOverflow ==> r@ == "number too large to fit in target type"@,
            *self == IntErrorKind::NegOverflow ==> r@ == "number too small to fit in target type"@,
    {
        match self {
            IntErrorKind::Empty => "cannot parse integer from empty string",
            IntErrorKind::InvalidDigit => "invalid digit found in string",
            IntErrorKind::PosOverflow => "number too large to fit in target type",
            IntErrorKind::NegOverflow => "number too small to fit in target type",
        }
    }
}

/// Reads the digits `s` from the left, as std does: the first character that is not a digit
/// gives `InvalidDigit`, and the first digit that takes the magnitude above `bound` gives
/// `overflow`.
pub open spec fn scan_digits(s: Seq<char>, bound: int, overflow: IntErrorKind) -> Result<
    int,
    IntErrorKind,
>
    decreases s.len(),
{
    if s.len() == 0 {
        Ok(0)
    } else {
        match scan_digits(s.drop_last(), bound, overflow) {
            Err(e) => Err(e),
            Ok(v) => {
                if !is_ascii_digit(s.last()) {
                    Err(IntErrorKind::InvalidDigit)
                } else if v * 10 + digit_value(s.last()) > bound {
                    Err(overflow)
                } else {
                    Ok(v * 10 + digit_value(s.last()))
                }
            },
        }
    }
}

/// What `str::parse` gives for an unsigned integer type whose largest value is `max`.
pub open spec fn parse_unsigned(s: Seq<char>, max: int) -> Result<int, IntErrorKind> {
    if s.len() == 0 {
        Err(IntErrorKind::Empty)
    } else if s.len() == 1 && (s[0] == '+' || s[0] == '-') {
        Err(IntErrorKind::InvalidDigit)
    } else if s[0] == '+' {
        scan_digits(s.drop_first(), max, IntErrorKind::PosOverflow)
    } else {
        scan_digits(s, max, IntErrorKind::PosOverflow)
    }
}

/// What `str::parse` gives for a signed integer type whose values are `-max - 1 ..= max`.
pub open spec fn parse_signed(s: Seq<char>, max: int) -> Result<int, IntErrorKind> {
    if s.len() == 0 {
        Err(IntErrorKind::Empty)
    } else if s.len() == 1 && (s[0] == '+' || s[0] == '-') {
        Err(IntErrorKind::InvalidDigit)
    } else if s[0] == '-' {
        match scan_digits(s.drop_first(), max + 1, IntErrorKind::NegOverflow) {
            Ok(v) => Ok(-v),
            Err(e) => Err(e),
        }
    } else if s[0] == '+' {
        scan_digits(s.drop_first(), max, IntErrorKind::PosOverflow)
    } else {
        scan_digits(s, max, IntErrorKind::PosOverflow)
    }
}

pub fn is_whitespace(c: char) -> (r: bool)
    ensures
        r == is_whitespace_char(c),
{
    let u = c as u32;
    (0x09 <= u && u <= 0x0d) || u == 0x20 || u == 0x85 || u == 0xa0 || u == 0x1680 || (0x2000 <= u
        && u <= 0x200a) || u == 0x2028 || u == 0x2029 || u == 0x202f || u == 0x205f || u == 0x3000
}

/// The characters of `s`.
pub fn chars_of(s: &str) -> (r: Vec<char>)
    ensures
        r@ == s@,
{
    let mut v: Vec<char> = Vec::new();
    for c in iter: s.chars()
        invariant
            v@ == iter.seq().take(iter.index() as int),
    {
        v.push(c);
        assert(v@ == iter.seq().take(iter.index() + 1));
    }
    assert(v@ == s@);
    v
}

/// The characters of `v` from index `lo` up to `hi`.
pub fn sub_chars(v: &Vec<char>, lo: usize, hi: usize) -> (r: Vec<char>)
    requires
        lo <= hi <= v.len(),
    ensures
        r@ == v@.subrange(lo as int, hi as int),
{
    let mut r: Vec<char> = Vec::new();
    let mut i: usize = lo;
    while i < hi
        invariant
            lo <= i <= hi <= v.len(),
            r@ == v@.subrange(lo as int, i as int),
        decreases hi - i,
    {
        r.push(v[i]);
        i = i + 1;
    }
    r
}

proof fn lemma_trim_start_skip(s: Seq<char>, i: int)
    requires
        0 <= i < s.len(),
        is_whitespace_char(s[i]),
    ensures
        trim_start(s.subrange(i, s.len() as int)) == trim_start(s.subrange(i + 1, s.len() as int)),
{
    assert(s.subrange(i, s.len() as int).drop_first() == s.subrange(i + 1, s.len() as int));
}

proof fn lemma_trim_end_skip(s: Seq<char>, j: int)
    requires
        0 < j <= s.len(),
        is_whitespace_char(s[j - 1]),
    ensures
        trim_end(s.subrange(0, j)) == trim_end(s.subrange(0, j - 1)),
{
    assert(s.subrange(0, j).drop_last() == s.subrange(0, j - 1));
}

/// The characters of `v` without leading and trailing whitespace.
pub fn trimmed(v: &Vec<char>) -> (r: Vec<char>)
    ensures
        r@ == trim(v@),
{
    let n = v.len();
    let mut lo: usize = 0;
    assert(v@.subrange(0, n as int) == v@);
    while lo < n && is_whitespace(v[lo])
        invariant
            lo <= n == v.len(),
            trim_start(v@) == trim_start(v@.subrange(lo as int, n as int)),
        decreases n - lo,
    {
        proof {
            lemma_trim_start_skip(v@, lo as int);
        }
        lo = lo + 1;
    }
    let ghost rest = v@.subrange(lo as int, n as int);
    assert(trim_start(v@) == rest) by {
        assert(v@.subrange(0, n as int) == v@);
    }
    let mut hi: usize = n;
    assert(rest.subrange(0, n - lo) == rest);
    while hi > lo && is_whitespace(v[hi - 1])
        invariant
            lo <= hi <= n == v.len(),
            rest == v@.subrange(lo as int, n as int),
            trim_end(rest) == trim_end(rest.subrange(0, hi - lo)),
        decreases hi,
    {
        proof {
            lemma_trim_end_skip(rest, (hi - lo) as int);
        }
        hi = hi - 1;
    }
    assert(trim_end(rest) == rest.subrange(0, hi - lo));
    assert(rest.subrange(0, hi - lo) == v@.subrange(lo as int, hi as int));
    sub_chars(v, lo, hi)
}


/// The pieces of `v` between the occurrences of `sep`.
pub fn split_chars(v: &Vec<char>, sep: char) -> (r: Vec<Vec<char>>)
    ensures
        r@.map_values(|p: Vec<char>| p@) == split(v@, sep),
{
    let mut pieces: Vec<Vec<char>> = Vec::new();
    let mut cur: Vec<char> = Vec::new();
    let mut i: usize = 0;
    while i < v.len()
        invariant
            i <= v.len(),
            split(v@.take(i as int), sep) == pieces@.map_values(|p: Vec<char>| p@).push(cur@),
        decreases v.len() - i,
    {
        assert(v@.take(i + 1).drop_last() == v@.take(i as int));
        if v[i] == sep {
            let done = cur;
            pieces.push(done);
            cur = Vec::new();
            assert(pieces@.map_values(|p: Vec<char>| p@).push(cur@) == split(
                v@.take(i as int),
                sep,
            ).push(Seq::empty()));
        } else {
            cur.push(v[i]);
        }
        i = i + 1;
    }
    assert(v@.take(v.len() as int) == v@);
    pieces.push(cur);
    pieces
}

/// Whether the characters of `v` are those of `w`.
pub fn is_word(v: &Vec<char>, w: &str) -> (r: bool)
    ensures
        r == (v@ == w@),
{
    let n = w.unicode_len();
    if v.len() != n {
        return false;
    }
    let mut i: usize = 0;
    while i < n
        invariant
            i <= n == v.len() == w@.len(),
            forall|j: int| 0 <= j < i ==> v@[j] == w@[j],
        decreases n - i,
    {
        if v[i] != w.get_char(i) {
            return false;
        }
        i = i + 1;
    }
    assert(v@ == w@);
    true
}

proof fn lemma_scan_error_stays(s: Seq<char>, i: int, bound: int, overflow: IntErrorKind)
    requires
        0 <= i <= s.len(),
        scan_digits(s.take(i), bound, overflow) is Err,
    ensures
        scan_digits(s, bound, overflow) == scan_digits(s.take(i), bound, overflow),
    decreases s.len() - i,
{
    if i < s.len() {
        assert(s.take(i + 1).drop_last() == s.take(i));
        lemma_scan_error_stays(s, i + 1, bound, overflow);
    } else {
        assert(s.take(i) == s);
    }
}

/// Reads the digits `v[start..]` as `scan_digits` does.
fn scan_digits_from(v: &Vec<char>, start: usize, bound: u64, overflow: IntErrorKind) -> (r: Result<
    u64,
    IntErrorKind,
>)
    requires
        start <= v.len(),
        bound <= u32::MAX as u64 + 1,
    ensures
        match r {
            Ok(n) => scan_digits(v@.subrange(start as int, v.len() as int), bound as int, overflow)
                == Ok::<int, IntErrorKind>(n as int),
            Err(e) => scan_digits(v@.subrange(start as int, v.len() as int), bound as int, overflow)
                == Err::<int, IntErrorKind>(e),
        },
        r matches Ok(n) ==> n <= bound,
{
    let ghost s = v@.subrange(start as int, v.len() as int);
    let mut acc: u64 = 0;
    let mut i: usize = start;
    while i < v.len()
        invariant
            start <= i <= v.len(),
            s == v@.subrange(start as int, v.len() as int),
            bound <= u32::MAX as u64 + 1,
            acc <= bound,
            scan_digits(s.take(i - start), bound as int, overflow) == Ok::<int, IntErrorKind>(
                acc as int,
            ),
        decreases v.len() - i,
    {
        let c = v[i];
        assert(s.take(i - start + 1).drop_last() == s.take(i - start));
        assert(s.take(i - start + 1).last() == c);
        if !('0' <= c && c <= '9') {
            proof {
                lemma_scan_error_stays(s, i - start + 1, bound as int, overflow);
            }
            return Err(IntErrorKind::InvalidDigit);
        }
        let d = (c as u32 - '0' as u32) as u64;
        if acc * 10 + d > bound {
            proof {
                lemma_scan_error_stays(s, i - start + 1, bound as int, overflow);
            }
            return Err(overflow);
        }
        acc = acc * 10 + d;
        i = i + 1;
    }
    assert(s.take(v.len() - start) == s);
    Ok(acc)
}

/// Reads `v` as `str::parse::<u32>` does.
pub fn parse_u32(v: &Vec<char>) -> (r: Result<u32, IntErrorKind>)
    ensures
        match r {
            Ok(n) => parse_unsigned(v@, u32::MAX as int) == Ok::<int, IntErrorKind>(n as int),
            Err(e) => parse_unsigned(v@, u32::MAX as int) == Err::<int, IntErrorKind>(e),
        },
{
    if v.len() == 0 {
        return Err(IntErrorKind::Empty);
    }
    if v.len() == 1 && (v[0] == '+' || v[0] == '-') {
        return Err(IntErrorKind::InvalidDigit);
    }
    assert(v@.subrange(1, v.len() as int) == v@.drop_first());
    assert(v@.subrange(0, v.len() as int) == v@);
    let scanned = if v[0] == '+' {
        scan_digits_from(v, 1, u32::MAX as u64, IntErrorKind::PosOverflow)
    } else {
        scan_digits_from(v, 0, u32::MAX as u64, IntErrorKind::PosOverflow)
    };
    match scanned {
        Ok(n) => Ok(n as u32),
        Err(e) => Err(e),
    }
}

/// Reads `v` as `str::parse::<i32>` does.
pub fn parse_i32(v: &Vec<char>) -> (r: Result<i32, IntErrorKind>)
    ensures
        match r {
            Ok(n) => parse_signed(v@, i32::MAX as int) == Ok::<int, IntErrorKind>(n as int),
            Err(e) => parse_signed(v@, i32::MAX as int) == Err::<int, IntErrorKind>(e),
        },
{
    if v.len() == 0 {
        return Err(IntErrorKind::Empty);
    }
    if v.len() == 1 && (v[0] == '+' || v[0] == '-') {
        return Err(IntErrorKind::InvalidDigit);
    }
    assert(v@.subrange(1, v.len() as int) == v@.drop_first());
    assert(v@.subrange(0, v.len() as int) == v@);
    if v[0] == '-' {
        match scan_digits_from(v, 1, i32::MAX as u64 + 1, IntErrorKind::NegOverflow) {
            Ok(n) => Ok((0 - n as i64) as i32),
            Err(e) => Err(e),
        }
    } else {
        let scanned = if v[0] == '+' {
            scan_digits_from(v, 1, i32::MAX as u64, IntErrorKind::PosOverflow)
        } else {
            scan_digits_from(v, 0, i32::MAX as u64, IntErrorKind::PosOverflow)
        };
        match scanned {
            Ok(n) => Ok(n as i32),
            Err(e) => Err(e),
        }
    }
}

} // verus!
