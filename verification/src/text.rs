//! Character-level helpers on lines of text.
//!
//! Lines are modelled as `Seq<char>`: every width, index and length in this
//! module counts characters, never bytes.

use vstd::prelude::*;
use vstd::std_specs::iter::IteratorSpec;
use vstd::string::StringExecFns;
use vstd::string::StrSliceExecFns;

verus! {

/// The number of space characters at the start of `line`.
pub open spec fn leading_spaces(line: Seq<char>) -> nat
    decreases line.len(),
{
    if line.len() > 0 && line[0] == ' ' {
        1 + leading_spaces(line.drop_first())
    } else {
        0
    }
}

/// `n` is the length of the run of spaces that `line` starts with.
pub open spec fn is_space_run(line: Seq<char>, n: int) -> bool {
    &&& 0 <= n <= line.len()
    &&& forall|j: int| 0 <= j < n ==> line[j] == ' '
    &&& n < line.len() ==> line[n] != ' '
}

/// `leading_spaces` is the one length that `is_space_run` accepts.
pub proof fn lemma_leading_spaces(line: Seq<char>, n: int)
    ensures
        is_space_run(line, leading_spaces(line) as int),
        is_space_run(line, n) ==> n == leading_spaces(line),
    decreases line.len(),
{
    if line.len() > 0 && line[0] == ' ' {
        let rest = line.drop_first();
        lemma_leading_spaces(rest, n - 1);
        let m = leading_spaces(rest) as int;
        assert forall|j: int| 0 <= j < m + 1 implies line[j] == ' ' by {
            if j > 0 {
                assert(rest[j - 1] == line[j]);
            }
        }
    }
}

/// `line` without its first `width` characters, or `line` itself where it is
/// shorter than `width`.
pub open spec fn dedent(line: Seq<char>, width: nat) -> Seq<char> {
    if width <= line.len() {
        line.skip(width as int)
    } else {
        line
    }
}

/// Copies the characters of `s` into a vector, so that they can be indexed
/// in constant time.
pub fn chars_of(s: &str) -> (chars: Vec<char>)
    ensures
        chars@ == s@,
{
    broadcast use vstd::string::group_string_axioms;

    let mut chars: Vec<char> = Vec::new();
    let iter = s.chars();
    for c in it: iter
        invariant
            it.seq() == s@,
            chars@ == s@.take(it.index()),
    {
        chars.push(c);
    }
    chars
}

/// Counts the spaces that `line` starts with.
pub fn count_leading_spaces(line: &str) -> (width: usize)
    ensures
        width == leading_spaces(line@),
{
    let chars = chars_of(line);
    let mut width: usize = 0;
    while width < chars.len() && chars[width] == ' '
        invariant
            chars@ == line@,
            width <= chars.len(),
            forall|j: int| 0 <= j < width ==> line@[j] == ' ',
        decreases chars.len() - width,
    {
        width += 1;
    }
    proof {
        lemma_leading_spaces(line@, width as int);
    }
    width
}

/// Strips `width` characters from the start of `line` where it has that many.
pub fn dedent_line<'a>(line: &'a str, width: usize) -> (rest: &'a str)
    ensures
        rest@ == dedent(line@, width as nat),
{
    let len = line.unicode_len();
    if width <= len {
        line.substring_char(width, len)
    } else {
        line
    }
}

/// Tells whether two strings hold the same characters.
pub fn same_text(a: &str, b: &str) -> (same: bool)
    ensures
        same == (a@ == b@),
{
    broadcast use vstd::string::group_string_axioms;

    let mut left = a.chars();
    let mut right = b.chars();
    let ghost mut seen: int = 0;
    loop
        invariant
            0 <= seen <= a@.len(),
            seen <= b@.len(),
            left.remaining() == a@.skip(seen),
            right.remaining() == b@.skip(seen),
            a@.take(seen) == b@.take(seen),
        decreases a@.len() - seen,
    {
        let x = left.next();
        let y = right.next();
        match (x, y) {
            (None, None) => {
                assert(a@ == a@.take(seen));
                assert(b@ == b@.take(seen));
                return true;
            },
            (Some(p), Some(q)) => {
                if p != q {
                    return false;
                }
                proof {
                    seen = seen + 1;
                }
            },
            _ => {
                return false;
            },
        }
    }
}

/// `c` is white space: one of the code points that Unicode classes as
/// `White_Space`.
pub open spec fn is_whitespace(c: char) -> bool {
    let code = c as u32;
    ||| 0x09 <= code <= 0x0D
    ||| code == 0x20
    ||| code == 0x85
    ||| code == 0xA0
    ||| code == 0x1680
    ||| 0x2000 <= code <= 0x200A
    ||| code == 0x2028
    ||| code == 0x2029
    ||| code == 0x202F
    ||| code == 0x205F
    ||| code == 0x3000
}

/// The number of white-space characters at the start of `s`.
pub open spec fn leading_whitespace(s: Seq<char>) -> nat
    decreases s.len(),
{
    if s.len() > 0 && is_whitespace(s[0]) {
        1 + leading_whitespace(s.drop_first())
    } else {
        0
    }
}

/// The number of white-space characters at the end of `s`.
pub open spec fn trailing_whitespace(s: Seq<char>) -> nat
    decreases s.len(),
{
    if s.len() > 0 && is_whitespace(s.last()) {
        1 + trailing_whitespace(s.drop_last())
    } else {
        0
    }
}

/// `s` without the white space at its start and at its end.
pub open spec fn trim(s: Seq<char>) -> Seq<char> {
    let start = leading_whitespace(s);
    if start == s.len() {
        Seq::empty()
    } else {
        s.subrange(start as int, s.len() - trailing_whitespace(s))
    }
}

/// `n` is the length of the run of white space that `s` starts with.
pub open spec fn is_leading_whitespace(s: Seq<char>, n: int) -> bool {
    &&& 0 <= n <= s.len()
    &&& forall|j: int| 0 <= j < n ==> is_whitespace(#[trigger] s[j])
    &&& n < s.len() ==> !is_whitespace(s[n])
}

/// `n` is the length of the run of white space that `s` ends with.
pub open spec fn is_trailing_whitespace(s: Seq<char>, n: int) -> bool {
    &&& 0 <= n <= s.len()
    &&& forall|j: int| s.len() - n <= j < s.len() ==> is_whitespace(#[trigger] s[j])
    &&& n < s.len() ==> !is_whitespace(s[s.len() - n - 1])
}

/// `leading_whitespace` is the one length that `is_leading_whitespace`
/// accepts.
pub proof fn lemma_leading_whitespace(s: Seq<char>, n: int)
    ensures
        is_leading_whitespace(s, leading_whitespace(s) as int),
        is_leading_whitespace(s, n) ==> n == leading_whitespace(s),
    decreases s.len(),
{
    if s.len() > 0 && is_whitespace(s[0]) {
        let rest = s.drop_first();
        lemma_leading_whitespace(rest, n - 1);
        let m = leading_whitespace(rest) as int;
        assert forall|j: int| 0 <= j < m + 1 implies is_whitespace(#[trigger] s[j]) by {
            if j > 0 {
                assert(rest[j - 1] == s[j]);
            }
        }
    }
}

/// `trailing_whitespace` is the one length that `is_trailing_whitespace`
/// accepts.
pub proof fn lemma_trailing_whitespace(s: Seq<char>, n: int)
    ensures
        is_trailing_whitespace(s, trailing_whitespace(s) as int),
        is_trailing_whitespace(s, n) ==> n == trailing_whitespace(s),
    decreases s.len(),
{
    if s.len() > 0 && is_whitespace(s.last()) {
        let rest = s.drop_last();
        lemma_trailing_whitespace(rest, n - 1);
        let m = trailing_whitespace(rest) as int;
        assert forall|j: int| s.len() - (m + 1) <= j < s.len() implies is_whitespace(
            #[trigger] s[j],
        ) by {
            if j < s.len() - 1 {
                assert(rest[j] == s[j]);
            }
        }
    }
}

/// Trimmed text that is not empty starts with a character that is no white
/// space.
pub proof fn lemma_trim_starts_with_text(s: Seq<char>)
    ensures
        trim(s).len() > 0 ==> !is_whitespace(trim(s)[0]),
{
    let start = leading_whitespace(s) as int;
    let end = s.len() - trailing_whitespace(s);
    lemma_leading_whitespace(s, start);
    lemma_trailing_whitespace(s, s.len() - end);
    if start < s.len() {
        assert(!is_whitespace(s[start]));
        assert(start < end);
        assert(trim(s)[0] == s[start]);
    }
}

/// Tells whether `c` is white space.
pub fn is_whitespace_char(c: char) -> (white: bool)
    ensures
        white == is_whitespace(c),
{
    let code = c as u32;
    (0x09 <= code && code <= 0x0D) || code == 0x20 || code == 0x85 || code == 0xA0 || code
        == 0x1680 || (0x2000 <= code && code <= 0x200A) || code == 0x2028 || code == 0x2029 || code
        == 0x202F || code == 0x205F || code == 0x3000
}

/// Strips the white space at the start and at the end of `s`.
pub fn trim_text<'a>(s: &'a str) -> (trimmed: &'a str)
    ensures
        trimmed@ == trim(s@),
{
    let chars = chars_of(s);
    let len = chars.len();
    let mut start: usize = 0;
    while start < len && is_whitespace_char(chars[start])
        invariant
            chars@ == s@,
            len == chars.len(),
            start <= len,
            forall|j: int| 0 <= j < start ==> is_whitespace(#[trigger] s@[j]),
        decreases len - start,
    {
        start += 1;
    }
    proof {
        lemma_leading_whitespace(s@, start as int);
    }
    if start == len {
        return s.substring_char(0, 0);
    }
    let mut end: usize = len;
    while end > start && is_whitespace_char(chars[end - 1])
        invariant
            chars@ == s@,
            len == chars.len(),
            start < len,
            !is_whitespace(s@[start as int]),
            start <= end <= len,
            forall|j: int| end <= j < len ==> is_whitespace(#[trigger] s@[j]),
        decreases end,
    {
        end -= 1;
    }
    proof {
        lemma_trailing_whitespace(s@, len - end);
    }
    s.substring_char(start, end)
}

/// The character that writes the digit `d`.
pub open spec fn digit_char(d: nat) -> char {
    if d == 0 {
        '0'
    } else if d == 1 {
        '1'
    } else if d == 2 {
        '2'
    } else if d == 3 {
        '3'
    } else if d == 4 {
        '4'
    } else if d == 5 {
        '5'
    } else if d == 6 {
        '6'
    } else if d == 7 {
        '7'
    } else if d == 8 {
        '8'
    } else {
        '9'
    }
}

/// The decimal digits of `n`, most significant first, without leading zeros.
pub open spec fn decimal(n: nat) -> Seq<char>
    decreases n,
{
    if n < 10 {
        seq![digit_char(n)]
    } else {
        decimal(n / 10).push(digit_char(n % 10))
    }
}

/// Every number is written with a character at least, and a number of two
/// digits or more with two characters at least.
pub proof fn lemma_decimal_len(n: nat)
    ensures
        decimal(n).len() >= 1,
        n >= 10 ==> decimal(n).len() >= 2,
    decreases n,
{
    if n >= 10 {
        lemma_decimal_len(n / 10);
    }
}

/// Different numbers are written differently.
pub proof fn lemma_decimal_injective(a: nat, b: nat)
    requires
        decimal(a) == decimal(b),
    ensures
        a == b,
    decreases a,
{
    lemma_decimal_len(a);
    lemma_decimal_len(b);
    if a < 10 && b < 10 {
        assert(decimal(b)[0] == digit_char(b));
    } else if a >= 10 && b >= 10 {
        let x = decimal(a / 10);
        let y = decimal(b / 10);
        let p = digit_char(a % 10);
        let q = digit_char(b % 10);
        assert(x.push(p).drop_last() =~= x);
        assert(y.push(q).drop_last() =~= y);
        assert(y.push(q).last() == q);
        lemma_decimal_injective(a / 10, b / 10);
    }
}

/// The text that writes the digit `d`.
fn digit_text(d: usize) -> (text: &'static str)
    requires
        d < 10,
    ensures
        text@ == seq![digit_char(d as nat)],
{
    proof {
        reveal_strlit("0");
        reveal_strlit("1");
        reveal_strlit("2");
        reveal_strlit("3");
        reveal_strlit("4");
        reveal_strlit("5");
        reveal_strlit("6");
        reveal_strlit("7");
        reveal_strlit("8");
        reveal_strlit("9");
    }
    let text = if d == 0 {
        "0"
    } else if d == 1 {
        "1"
    } else if d == 2 {
        "2"
    } else if d == 3 {
        "3"
    } else if d == 4 {
        "4"
    } else if d == 5 {
        "5"
    } else if d == 6 {
        "6"
    } else if d == 7 {
        "7"
    } else if d == 8 {
        "8"
    } else {
        "9"
    };
    text
}

/// Writes `n` in decimal.
pub fn decimal_string(n: usize) -> (text: String)
    ensures
        text@ == decimal(n as nat),
    decreases n,
{
    if n < 10 {
        String::from_str(digit_text(n))
    } else {
        let mut text = decimal_string(n / 10);
        text.append(digit_text(n % 10));
        text
    }
}

} // verus!
