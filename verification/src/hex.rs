//! Hexadecimal numerals of unsigned 32-bit numbers.

use vstd::prelude::*;

verus! {

/// Why a text is not the numeral of a 32-bit number.
#[derive(Debug, Clone, Copy, PartialEq, Eq)]
pub enum HexError {
    /// The text is empty.
    Empty,
    /// A character is not a hexadecimal digit.
    InvalidDigit,
    /// The digits stand for a number above `u32::MAX`.
    TooLarge,
}

/// The sixteen digits that numerals are written with, by value.
pub open spec fn digit_chars() -> Seq<char> {
    seq!['0', '1', '2', '3', '4', '5', '6', '7', '8', '9', 'a', 'b', 'c', 'd', 'e', 'f']
}

/// The value of the digit `c`, in either case; `None` for any other character.
pub open spec fn digit_value(c: char) -> Option<nat> {
    let u = c as u32;
    if 0x30 <= u <= 0x39 {
        Some((u - 0x30) as nat)
    } else if 0x61 <= u <= 0x66 {
        Some((u - 0x61 + 10) as nat)
    } else if 0x41 <= u <= 0x46 {
        Some((u - 0x41 + 10) as nat)
    } else {
        None
    }
}

/// Whether every character of `s` is a hexadecimal digit.
pub open spec fn all_digits(s: Seq<char>) -> bool {
    forall|i: int| 0 <= i < s.len() ==> digit_value(#[trigger] s[i]) is Some
}

/// The numeral of `n`: lower case, without prefix, without leading zeros.
pub open spec fn numeral(n: nat) -> Seq<char>
    decreases n,
{
    if n < 16 {
        seq![digit_chars()[n as int]]
    } else {
        numeral(n / 16).push(digit_chars()[(n % 16) as int])
    }
}

/// The number that the digits of `s` stand for, the first one counting most.
/// A character that is no digit counts as zero.
pub open spec fn value(s: Seq<char>) -> nat
    decreases s.len(),
{
    if s.len() == 0 {
        0
    } else {
        16 * value(s.drop_last()) + match digit_value(s.last()) {
            Some(d) => d,
            None => 0,
        }
    }
}

/// How many digits `s` starts with.
pub open spec fn leading_digits(s: Seq<char>) -> nat
    decreases s.len(),
{
    if s.len() == 0 || digit_value(s[0]) is None {
        0
    } else {
        1 + leading_digits(s.drop_first())
    }
}

/// What `s` parses to.
///
/// A numeral is made of digits, at least one, and of nothing else: no sign
/// and no prefix.  The text is read from the left: digits that already
/// exceed `u32::MAX` are reported as `TooLarge` even if a character that is
/// no digit follows them.
pub open spec fn parse(s: Seq<char>) -> Result<u32, HexError> {
    let k = leading_digits(s) as int;
    let v = value(s.take(k));
    if s.len() == 0 {
        Err(HexError::Empty)
    } else if v > u32::MAX {
        Err(HexError::TooLarge)
    } else if k < s.len() {
        Err(HexError::InvalidDigit)
    } else {
        Ok(v as u32)
    }
}

impl HexError {
    /// What the error says, for a message.
    pub open spec fn text(self) -> Seq<char> {
        match self {
            HexError::Empty => "cannot parse integer from empty string"@,
            HexError::InvalidDigit => "invalid digit found in string"@,
            HexError::TooLarge => "number too large to fit in target type"@,
        }
    }

    /// Describes the error in a few words.
    pub fn message(&self) -> (m: &'static str)
        ensures
            m@ == self.text(),
    {
        match self {
            HexError::Empty => "cannot parse integer from empty string",
            HexError::InvalidDigit => "invalid digit found in string",
            HexError::TooLarge => "number too large to fit in target type",
        }
    }
}

/// The value of the digit `c`, if it is one.
pub fn digit_of(c: char) -> (d: Option<u32>)
    ensures
        match d {
            Some(v) => digit_value(c) == Some(v as nat),
            None => digit_value(c) is None,
        },
{
    let u: u32 = c as u32;
    if 0x30 <= u && u <= 0x39 {
        Some(u - 0x30)
    } else if 0x61 <= u && u <= 0x66 {
        Some(u - 0x61 + 10)
    } else if 0x41 <= u && u <= 0x46 {
        Some(u - 0x41 + 10)
    } else {
        None
    }
}

/// The digit for `d`, as a text of one character.
fn digit_text(d: u32) -> (t: &'static str)
    requires
        d < 16,
    ensures
        t@ == seq![digit_chars()[d as int]],
{
    proof {
        reveal_strlit("0");
        reveal_strlit("1");
        reveal_strlit("2");
        reveal_strlit("3");
        reveal_strlit("4");
        reveal_strlit("5");
        reveal_strlit("6");
        reveal_strlit("7");
        reveal_strlit("8");
        reveal_strlit("9");
        reveal_strlit("a");
        reveal_strlit("b");
        reveal_strlit("c");
        reveal_strlit("d");
        reveal_strlit("e");
        reveal_strlit("f");
    }
    let t = if d == 0 {
        "0"
    } else if d == 1 {
        "1"
    } else if d == 2 {
        "2"
    } else if d == 3 {
        "3"
    } else if d == 4 {
        "4"
    } else if d == 5 {
        "5"
    } else if d == 6 {
        "6"
    } else if d == 7 {
        "7"
    } else if d == 8 {
        "8"
    } else if d == 9 {
        "9"
    } else if d == 10 {
        "a"
    } else if d == 11 {
        "b"
    } else if d == 12 {
        "c"
    } else if d == 13 {
        "d"
    } else if d == 14 {
        "e"
    } else {
        "f"
    };
    assert(t@ =~= seq![digit_chars()[d as int]]);
    t
}

/// Writes the numeral of `n` at the end of `out`.
pub fn append_numeral(n: u32, out: &mut String)
    ensures
        final(out)@ == old(out)@ + numeral(n as nat),
    decreases n,
{
    if n >= 16 {
        append_numeral(n / 16, out);
    }
    out.append(digit_text(n % 16));
    assert(out@ =~= old(out)@ + numeral(n as nat));
}

/// The numeral of `n`.
pub fn to_numeral(n: u32) -> (text: String)
    ensures
        text@ == numeral(n as nat),
{
    let mut text = String::new();
    append_numeral(n, &mut text);
    assert(text@ =~= numeral(n as nat));
    text
}

/// Reads the numeral `text`.
pub fn from_numeral(text: &str) -> (r: Result<u32, HexError>)
    ensures
        r == parse(text@),
{
    let ghost digits = text@;
    let mut acc: u32 = 0;
    let mut seen = false;
    for c in it: text.chars()
        invariant
            it.seq() == digits,
            digits == text@,
            seen == (it.index() > 0),
            all_digits(digits.take(it.index())),
            acc == value(digits.take(it.index())),
    {
        let ghost k = it.index();
        assert(digits.take(k + 1).drop_last() =~= digits.take(k));
        match digit_of(c) {
            None => {
                proof {
                    lemma_leading_digits(digits, k);
                }
                return Err(HexError::InvalidDigit);
            },
            Some(d) => {
                assert(all_digits(digits.take(k + 1))) by {
                    assert forall|j: int| 0 <= j < k + 1 implies digit_value(
                        #[trigger] digits.take(k + 1)[j],
                    ) is Some by {
                        if j < k {
                            assert(digits.take(k + 1)[j] == digits.take(k)[j]);
                        }
                    }
                }
                if acc > 0x0fff_ffff {
                    proof {
                        lemma_leading_digits(digits, k + 1);
                        lemma_leading_digits_are_digits(digits);
                        lemma_value_grows(digits, k + 1, leading_digits(digits) as int);
                    }
                    return Err(HexError::TooLarge);
                }
                acc = acc * 16 + d;
                seen = true;
            },
        }
    }
    proof {
        assert(digits.take(digits.len() as int) =~= digits);
        lemma_leading_digits(digits, digits.len() as int);
    }
    if seen {
        Ok(acc)
    } else {
        Err(HexError::Empty)
    }
}

/// Counting leading digits: a run of `i` digits at the start of `s` is
/// counted in full, and the count is `i` where the run stops there.
pub proof fn lemma_leading_digits(s: Seq<char>, i: int)
    requires
        0 <= i <= s.len(),
        all_digits(s.take(i)),
    ensures
        leading_digits(s) >= i,
        i == s.len() || digit_value(s[i]) is None ==> leading_digits(s) == i,
    decreases i,
{
    if i > 0 {
        assert(s.take(i)[0] == s[0]);
        let rest = s.drop_first();
        assert forall|j: int| 0 <= j < i - 1 implies digit_value(
            #[trigger] rest.take(i - 1)[j],
        ) is Some by {
            assert(rest.take(i - 1)[j] == s.take(i)[j + 1]);
        }
        lemma_leading_digits(rest, i - 1);
        assert(i < s.len() ==> rest[i - 1] == s[i]);
    }
}

/// What is counted as leading digits are digits.
pub proof fn lemma_leading_digits_are_digits(s: Seq<char>)
    ensures
        leading_digits(s) <= s.len(),
        all_digits(s.take(leading_digits(s) as int)),
    decreases s.len(),
{
    if s.len() > 0 && digit_value(s[0]) is Some {
        let rest = s.drop_first();
        lemma_leading_digits_are_digits(rest);
        let k = leading_digits(s) as int;
        assert forall|i: int| 0 <= i < k implies digit_value(#[trigger] s.take(k)[i]) is Some by {
            if i > 0 {
                assert(s.take(k)[i] == rest.take(k - 1)[i - 1]);
            }
        }
    }
}

/// What is accepted: a text parses exactly when it is made of digits, at
/// least one, that stand for a number up to `u32::MAX`; and it parses to
/// that number.  A sign is no digit.
pub proof fn lemma_parse_accepts(s: Seq<char>)
    ensures
        parse(s) is Ok <==> s.len() > 0 && all_digits(s) && value(s) <= u32::MAX,
        parse(s) is Ok ==> parse(s)->Ok_0 == value(s),
        s.len() > 0 && (s[0] == '+' || s[0] == '-') ==> parse(s) == Err::<u32, HexError>(
            HexError::InvalidDigit,
        ),
{
    lemma_leading_digits_are_digits(s);
    if all_digits(s) {
        assert(s.take(s.len() as int) =~= s);
        lemma_leading_digits(s, s.len() as int);
    }
    if leading_digits(s) == s.len() {
        assert(s.take(s.len() as int) =~= s);
    }
    if s.len() > 0 && (s[0] == '+' || s[0] == '-') {
        assert(digit_value(s[0]) is None);
        assert(s.take(0) =~= Seq::<char>::empty());
    }
}

/// A longer prefix never stands for a smaller number.
pub proof fn lemma_value_grows(s: Seq<char>, i: int, k: int)
    requires
        0 <= i <= k <= s.len(),
    ensures
        value(s.take(i)) <= value(s.take(k)),
    decreases k - i,
{
    if i < k {
        lemma_value_grows(s, i, k - 1);
        assert(s.take(k).drop_last() =~= s.take(k - 1));
    }
}

/// Every character of a numeral is a digit, and the first is not `0` unless
/// the number is zero.
pub proof fn lemma_numeral_digits(n: nat)
    ensures
        numeral(n).len() > 0,
        all_digits(numeral(n)),
        n > 0 ==> numeral(n)[0] != '0',
    decreases n,
{
    lemma_digit_chars();
    if n >= 16 {
        lemma_numeral_digits(n / 16);
    }
}

/// The digit written for `d` has the value `d`.
pub proof fn lemma_digit_chars()
    ensures
        forall|d: int| 0 <= d < 16 ==> digit_value(#[trigger] digit_chars()[d]) == Some(d as nat),
        forall|d: int| 0 < d < 16 ==> #[trigger] digit_chars()[d] != '0',
{
    let t = digit_chars();
    assert(t[0] == '0' && t[1] == '1' && t[2] == '2' && t[3] == '3');
    assert(t[4] == '4' && t[5] == '5' && t[6] == '6' && t[7] == '7');
    assert(t[8] == '8' && t[9] == '9' && t[10] == 'a' && t[11] == 'b');
    assert(t[12] == 'c' && t[13] == 'd' && t[14] == 'e' && t[15] == 'f');
}

/// A numeral stands for the number it was written for.
pub proof fn lemma_numeral_value(n: nat)
    ensures
        value(numeral(n)) == n,
    decreases n,
{
    lemma_digit_chars();
    let s = numeral(n);
    if n < 16 {
        assert(s.drop_last() =~= Seq::<char>::empty());
        assert(value(s.drop_last()) == 0);
        assert(s.last() == digit_chars()[n as int]);
    } else {
        lemma_numeral_value(n / 16);
        assert(s.drop_last() =~= numeral(n / 16));
        assert(s.last() == digit_chars()[(n % 16) as int]);
    }
}

/// Reading back what was written: the numeral of a 32-bit number parses to
/// that number.
pub proof fn lemma_parse_numeral(n: u32)
    ensures
        parse(numeral(n as nat)) == Ok::<u32, HexError>(n),
{
    let s = numeral(n as nat);
    lemma_numeral_digits(n as nat);
    lemma_numeral_value(n as nat);
    assert(s.take(s.len() as int) =~= s);
    lemma_leading_digits(s, s.len() as int);
}

} // verus!
