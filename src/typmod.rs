use vstd::prelude::*;
use vstd::string::{StrSliceExecFns, StringExecFns};

verus! {

/// The type modifier attached to a vector column: any dimension, or a fixed,
/// positive number of dimensions.
///
/// The number of dimensions is kept as a plain `u32`; a well-formed value has it
/// positive and within the range of its `i32` encoding (see [`Typmod::wf`]).
#[derive(Debug, Clone, Copy, PartialEq, Eq, Structural)]
pub enum Typmod {
    Any,
    Dims(u32),
}

/// Decimal digits of a natural number, most significant first, with no leading zeros.
pub open spec fn decimal(n: nat) -> Seq<char>
    decreases n,
{
    if n < 10 {
        seq![digit_char(n)]
    } else {
        decimal(n / 10).push(digit_char(n % 10))
    }
}

/// The ASCII character of a decimal digit.
pub open spec fn digit_char(d: nat) -> char {
    if d < 10 {
        (('0' as u8) + (d as u8)) as char
    } else {
        '?'
    }
}

/// The one-character text of a decimal digit.
fn digit_str(d: u32) -> (r: &'static str)
    requires
        d < 10,
    ensures
        r@ == seq![digit_char(d as nat)],
{
    let r = match d {
        0 => "0",
        1 => "1",
        2 => "2",
        3 => "3",
        4 => "4",
        5 => "5",
        6 => "6",
        7 => "7",
        8 => "8",
        _ => "9",
    };
    proof {
        reveal_strlit("0");
        reveal_strlit("1");
        reveal_strlit("2");
        reveal_strlit("3");
        reveal_strlit("4");
        reveal_strlit("5");
        reveal_strlit("6");
        reveal_strlit("7");
        reveal_strlit("8");
        reveal_strlit("9");
        assert(r@ =~= seq![digit_char(d as nat)]);
    }
    r
}

/// The decimal digits of `x`, most significant first, with no leading zeros.
fn u32_to_decimal(x: u32) -> (r: String)
    ensures
        r@ == decimal(x as nat),
    decreases x,
{
    if x < 10 {
        String::from_str(digit_str(x))
    } else {
        let mut r = u32_to_decimal(x / 10);
        r.append(digit_str(x % 10));
        proof {
            assert(r@ =~= decimal(x as nat));
        }
        r
    }
}

impl Typmod {
    /// A well-formed modifier has a positive number of dimensions that its integer
    /// encoding can hold.
    pub open spec fn wf(self) -> bool {
        match self {
            Typmod::Any => true,
            Typmod::Dims(d) => 1 <= d <= i32::MAX,
        }
    }

    /// The integer encoding of a modifier: `-1` for any dimension, the number itself otherwise.
    pub open spec fn encoding(self) -> i32 {
        match self {
            Typmod::Any => -1i32,
            Typmod::Dims(d) => d as i32,
        }
    }

    /// Decodes the integer form: `-1` is any dimension, a positive value is a number of
    /// dimensions, everything else is rejected.
    pub fn parse_from_i32(x: i32) -> (r: Option<Self>)
        ensures
            x == -1 ==> r == Some(Typmod::Any),
            x >= 1 ==> r == Some(Typmod::Dims(x as u32)),
            (x != -1 && x < 1) <==> r is None,
            r matches Some(t) ==> t.wf() && t.encoding() == x,
    {
        if x == -1 {
            Some(Typmod::Any)
        } else if x >= 1 {
            Some(Typmod::Dims(x as u32))
        } else {
            None
        }
    }

    /// The text form of the modifier's argument: nothing for any dimension, the decimal
    /// number of dimensions otherwise.
    pub fn into_option_string(self) -> (r: Option<String>)
        ensures
            self == Typmod::Any ==> r is None,
            self matches Typmod::Dims(d) ==> r matches Some(s) && s@ == decimal(d as nat),
    {
        match self {
            Typmod::Any => None,
            Typmod::Dims(x) => Some(u32_to_decimal(x)),
        }
    }

    /// The integer encoding of the modifier.
    pub fn into_i32(self) -> (r: i32)
        ensures
            r == self.encoding(),
            self.wf() ==> r != 0 && (r == -1 <==> self == Typmod::Any),
            self matches Typmod::Dims(d) ==> (d <= i32::MAX ==> r == d),
    {
        match self {
            Typmod::Any => -1i32,
            Typmod::Dims(x) => x as i32,
        }
    }

    /// The number of dimensions, if fixed.
    pub fn dims(self) -> (r: Option<u32>)
        ensures
            self == Typmod::Any ==> r is None,
            self matches Typmod::Dims(d) ==> r == Some(d),
    {
        match self {
            Typmod::Any => None,
            Typmod::Dims(d) => Some(d),
        }
    }
}

/// The largest number of dimensions that the textual modifier accepts.
pub const MAX_DIMS: u32 = 65535;

/// The character is an ASCII decimal digit.
pub open spec fn is_digit(c: char) -> bool {
    '0' as u32 <= c as u32 <= '9' as u32
}

/// The value of a run of decimal digits, most significant first.
pub open spec fn digits_value(s: Seq<char>) -> int
    decreases s.len(),
{
    if s.len() == 0 {
        0
    } else {
        digits_value(s.drop_last()) * 10 + (s.last() as u32 - '0' as u32)
    }
}

/// The text after an optional leading `+`.
pub open spec fn unsigned_part(s: Seq<char>) -> Seq<char> {
    if s.len() > 0 && s[0] == '+' {
        s.drop_first()
    } else {
        s
    }
}

/// Every character is a decimal digit.
pub open spec fn all_digits(d: Seq<char>) -> bool {
    forall|k: int| 0 <= k < d.len() ==> is_digit(#[trigger] d[k])
}

/// What parsing a `u32` from text gives: an optional `+` followed by at least one decimal
/// digit, with a value that fits; anything else is rejected.
pub open spec fn parse_u32(s: Seq<char>) -> Option<u32> {
    let d = unsigned_part(s);
    if d.len() > 0 && all_digits(d) && digits_value(d) <= u32::MAX {
        Some(digits_value(d) as u32)
    } else {
        None
    }
}

/// A run of digits is worth no less than zero.
proof fn lemma_digits_nonneg(d: Seq<char>)
    requires
        forall|k: int| 0 <= k < d.len() ==> is_digit(#[trigger] d[k]),
    ensures
        digits_value(d) >= 0,
    decreases d.len(),
{
    if d.len() > 0 {
        let p = d.drop_last();
        assert forall|k: int| 0 <= k < p.len() implies is_digit(#[trigger] p[k]) by {
            assert(p[k] == d[k]);
        }
        lemma_digits_nonneg(p);
        assert(is_digit(d[d.len() - 1]));
    }
}

/// A run of digits is worth no less than any of its prefixes.
proof fn lemma_digits_prefix(d: Seq<char>, i: int)
    requires
        0 <= i <= d.len(),
        forall|k: int| 0 <= k < d.len() ==> is_digit(#[trigger] d[k]),
    ensures
        digits_value(d.subrange(0, i)) <= digits_value(d),
    decreases d.len() - i,
{
    if i < d.len() {
        lemma_digits_prefix(d, i + 1);
        let p = d.subrange(0, i);
        assert(d.subrange(0, i + 1).drop_last() =~= p);
        assert forall|k: int| 0 <= k < p.len() implies is_digit(#[trigger] p[k]) by {
            assert(p[k] == d[k]);
        }
        lemma_digits_nonneg(p);
        assert(is_digit(d[i]));
    } else {
        assert(d.subrange(0, i) =~= d);
    }
}

/// Reads a `u32` written as an optional `+` followed by decimal digits; anything else,
/// and a value that does not fit, gives `None`.
fn parse_decimal_u32(s: &str) -> (r: Option<u32>)
    ensures
        r == parse_u32(s@),
{
    let n = s.unicode_len();
    let mut start: usize = 0;
    if n > 0 && s.get_char(0) == '+' {
        start = 1;
    }
    let ghost d = s@.subrange(start as int, n as int);
    proof {
        if s@.len() > 0 && s@[0] == '+' {
            assert(d =~= s@.drop_first());
        } else {
            assert(d =~= s@);
        }
    }
    if start == n {
        return None;
    }
    let mut i: usize = start;
    let mut value: u64 = 0;
    while i < n
        invariant
            start <= i <= n,
            start < n,
            n == s@.len(),
            d == s@.subrange(start as int, n as int),
            d == unsigned_part(s@),
            value == digits_value(d.subrange(0, i - start)),
            value <= u32::MAX,
            forall|k: int| 0 <= k < i - start ==> is_digit(#[trigger] d[k]),
        decreases n - i,
    {
        let c = s.get_char(i);
        let code = c as u32;
        if code < '0' as u32 || code > '9' as u32 {
            proof {
                assert(d[i - start] == c);
                assert(!is_digit(d[i - start]));
                assert(!all_digits(d));
                assert(parse_u32(s@) is None);
            }
            return None;
        }
        let ghost j = i - start;
        proof {
            assert(d[j] == c);
            assert(d.subrange(0, j + 1).drop_last() =~= d.subrange(0, j));
        }
        value = value * 10 + (code - '0' as u32) as u64;
        i = i + 1;
        if value > u32::MAX as u64 {
            proof {
                if all_digits(d) {
                    lemma_digits_prefix(d, j + 1);
                    assert(digits_value(d) > u32::MAX);
                }
                assert(parse_u32(s@) is None);
            }
            return None;
        }
    }
    proof {
        assert(d.subrange(0, n - start) =~= d);
    }
    Some(value as u32)
}

/// The text between a pair of parentheses.
fn parenthesize(s: &str) -> (r: String)
    ensures
        r@ == seq!['('] + s@ + seq![')'],
{
    let mut r = String::from_str("(");
    r.append(s);
    r.append(")");
    proof {
        reveal_strlit("(");
        reveal_strlit(")");
        assert(r@ =~= seq!['('] + s@ + seq![')']);
    }
    r
}

/// The integer form of the modifier written as a list of texts: none gives any dimension,
/// a single number between 1 and `MAX_DIMS` gives that many dimensions, and anything else
/// is invalid (`None`).
pub fn typmod_in_65535(list: &Vec<String>) -> (r: Option<i32>)
    ensures
        list@.len() == 0 ==> r == Some(-1i32),
        list@.len() > 1 ==> r is None,
        list@.len() == 1 ==> r == (match parse_u32(list@[0]@) {
            Some(d) => if 1 <= d <= MAX_DIMS {
                Some(d as i32)
            } else {
                None
            },
            None => None,
        }),
{
    if list.len() == 0 {
        Some(Typmod::Any.into_i32())
    } else if list.len() == 1 {
        match parse_decimal_u32(list[0].as_str()) {
            Some(d) => {
                if 1 <= d && d <= MAX_DIMS {
                    Some(Typmod::Dims(d).into_i32())
                } else {
                    None
                }
            },
            None => None,
        }
    } else {
        None
    }
}

/// The text form of an integer modifier: `()` for any dimension, the number of dimensions
/// in parentheses otherwise. The integer must encode a modifier.
pub fn typmod_out(typmod: i32) -> (r: String)
    requires
        typmod == -1 || typmod >= 1,
    ensures
        typmod == -1 ==> r@ == seq!['(', ')'],
        typmod >= 1 ==> r@ == seq!['('] + decimal(typmod as nat) + seq![')'],
{
    if typmod == -1 {
        let r = parenthesize("");
        proof {
            reveal_strlit("");
            assert(r@ =~= seq!['(', ')']);
        }
        r
    } else {
        let s = u32_to_decimal(typmod as u32);
        parenthesize(s.as_str())
    }
}

} // verus!
