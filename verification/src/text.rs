//! Numbers as text.

use vstd::prelude::*;

verus! {

/// The digit for a value below sixteen, in upper case.
pub open spec fn digit(d: int) -> char {
    if d < 10 {
        (0x30 + d) as char
    } else {
        (0x41 + d - 10) as char
    }
}

/// A number in decimal digits, without leading zeros.
pub open spec fn decimal(n: int) -> Seq<char>
    decreases n,
{
    if n < 10 {
        seq![digit(n)]
    } else {
        decimal(n / 10).push(digit(n % 10))
    }
}

/// A byte in two hexadecimal digits.
pub open spec fn hex_byte(b: int) -> Seq<char> {
    seq![digit(b / 16), digit(b % 16)]
}

/// The text of one digit.
fn digit_text(d: u32) -> (r: &'static str)
    requires
        d < 16,
    ensures
        r@ == seq![digit(d as int)],
{
    proof {
        reveal_strlit("0");
        reveal_strlit("1");
        reveal_strlit("2");
        reveal_strlit("3");
        reveal_strlit("4");
        reveal_strlit("5");
        reveal_strlit("6");
        reveal_strlit("7");
        reveal_strlit("8");
        reveal_strlit("9");
        reveal_strlit("A");
        reveal_strlit("B");
        reveal_strlit("C");
        reveal_strlit("D");
        reveal_strlit("E");
        reveal_strlit("F");
    }
    match d {
        0 => "0",
        1 => "1",
        2 => "2",
        3 => "3",
        4 => "4",
        5 => "5",
        6 => "6",
        7 => "7",
        8 => "8",
        9 => "9",
        10 => "A",
        11 => "B",
        12 => "C",
        13 => "D",
        14 => "E",
        _ => "F",
    }
}

/// Appends a number in decimal digits.
pub fn push_decimal(text: &mut String, n: usize)
    ensures
        final(text)@ == old(text)@ + decimal(n as int),
    decreases n,
{
    if n >= 10 {
        push_decimal(text, n / 10);
    }
    text.append(digit_text((n % 10) as u32));
    assert(text@ =~= old(text)@ + decimal(n as int));
}

/// Appends a byte in two hexadecimal digits.
pub fn push_hex_byte(text: &mut String, b: u8)
    ensures
        final(text)@ == old(text)@ + hex_byte(b as int),
{
    text.append(digit_text(b as u32 / 16));
    text.append(digit_text(b as u32 % 16));
    assert(text@ =~= old(text)@ + hex_byte(b as int));
}

/// Whether two texts are the same.
pub fn same_text(a: &str, b: &str) -> (r: bool)
    ensures
        r == (a@ == b@),
{
    a.to_owned() == b.to_owned()
}

/// A number in decimal digits is made of digits, and has at least one.
pub proof fn lemma_decimal_digits(n: int)
    requires
        0 <= n,
    ensures
        decimal(n).len() >= 1,
        forall|i: int| 0 <= i < decimal(n).len() ==> '0' <= #[trigger] decimal(n)[i] <= '9',
    decreases n,
{
    if n >= 10 {
        lemma_decimal_digits(n / 10);
    }
}

/// Different numbers have different decimal digits.
pub proof fn law_decimal_is_injective(a: int, b: int)
    requires
        0 <= a,
        0 <= b,
        decimal(a) == decimal(b),
    ensures
        a == b,
    decreases a,
{
    let (s, t) = (decimal(a), decimal(b));
    assert(s.last() == t.last());
    if a >= 10 {
        lemma_decimal_digits(a / 10);
    }
    if b >= 10 {
        lemma_decimal_digits(b / 10);
    }
    if a >= 10 && b >= 10 {
        assert(s.drop_last() =~= decimal(a / 10));
        assert(t.drop_last() =~= decimal(b / 10));
        law_decimal_is_injective(a / 10, b / 10);
    }
}

/// Different bytes have different hexadecimal digits.
pub proof fn law_hex_byte_is_injective(a: int, b: int)
    requires
        0 <= a < 256,
        0 <= b < 256,
        hex_byte(a) == hex_byte(b),
    ensures
        a == b,
{
    assert(hex_byte(a)[0] == digit(a / 16) && hex_byte(a)[1] == digit(a % 16));
    assert(hex_byte(b)[0] == digit(b / 16) && hex_byte(b)[1] == digit(b % 16));
}

/// A number and what follows it can be told apart, if what follows begins with
/// the same character, which is no digit.
pub proof fn lemma_decimal_prefix(a: int, x: Seq<char>, b: int, y: Seq<char>)
    requires
        0 <= a,
        0 <= b,
        x.len() > 0,
        y.len() > 0,
        x[0] == y[0],
        x[0] < '0' || '9' < x[0],
        decimal(a) + x == decimal(b) + y,
    ensures
        a == b,
        x == y,
{
    let (s, t) = (decimal(a), decimal(b));
    let whole = s + x;
    lemma_decimal_digits(a);
    lemma_decimal_digits(b);
    assert(whole[s.len() as int] == x[0]);
    assert((t + y)[t.len() as int] == y[0]);
    if s.len() < t.len() {
        assert((t + y)[s.len() as int] == t[s.len() as int]);
    } else if t.len() < s.len() {
        assert(whole[t.len() as int] == s[t.len() as int]);
    }
    assert(s =~= whole.take(s.len() as int));
    assert(t =~= (t + y).take(t.len() as int));
    assert(x =~= whole.skip(s.len() as int));
    assert(y =~= (t + y).skip(t.len() as int));
    law_decimal_is_injective(a, b);
}

/// The value of a digit: its place among `0` to `9` and `A` to `F`. Any other
/// character has none.
pub open spec fn digit_value(c: char) -> int {
    if '0' <= c <= '9' {
        c as int - '0' as int
    } else if 'A' <= c <= 'F' {
        c as int - 'A' as int + 10
    } else {
        -1
    }
}

/// The number that digits stand for in a base, read from the left.
pub open spec fn number(digits: Seq<char>, base: int) -> int
    decreases digits.len(),
{
    if digits.len() == 0 {
        0
    } else {
        base * number(digits.drop_last(), base) + digit_value(digits.last())
    }
}

/// Whether a text is a number in a base: digits of that base alone, and at least
/// one.
pub open spec fn is_number(digits: Seq<char>, base: int) -> bool {
    &&& digits.len() > 0
    &&& forall|i: int| 0 <= i < digits.len() ==> 0 <= digit_value(#[trigger] digits[i]) < base
}

/// Reading decimal digits gives back the number that was written, and it is
/// written without a leading zero.
pub proof fn law_decimal_reads_back(n: int)
    requires
        0 <= n,
    ensures
        is_number(decimal(n), 10),
        number(decimal(n), 10) == n,
        decimal(n).len() > 1 ==> decimal(n)[0] != '0',
    decreases n,
{
    let text = decimal(n);
    if n >= 10 {
        let front = decimal(n / 10);
        law_decimal_reads_back(n / 10);
        lemma_decimal_digits(n / 10);
        assert(text.drop_last() =~= front);
        assert(digit_value(text.last()) == n % 10);
        assert forall|i: int| 0 <= i < text.len() implies 0 <= digit_value(#[trigger] text[i])
            < 10 by {
            if i < front.len() {
                assert(text[i] == front[i]);
            }
        }
        assert(text[0] == front[0]);
        if front.len() == 1 {
            assert(number(front, 10) == 10 * number(front.drop_last(), 10) + digit_value(front[0]));
            assert(front.drop_last().len() == 0);
            assert(digit_value(front[0]) == n / 10);
        }
    } else {
        assert(number(text.drop_last(), 10) == 0);
        assert(text.last() == digit(n));
        assert(number(text, 10) == 10 * number(text.drop_last(), 10) + digit_value(text.last()));
    }
}

/// Reading two hexadecimal digits gives back the byte that was written.
pub proof fn law_hex_byte_reads_back(b: int)
    requires
        0 <= b < 256,
    ensures
        hex_byte(b).len() == 2,
        is_number(hex_byte(b), 16),
        number(hex_byte(b), 16) == b,
{
    let text = hex_byte(b);
    assert(text[0] == digit(b / 16) && text[1] == digit(b % 16));
    assert(digit_value(text[0]) == b / 16 && digit_value(text[1]) == b % 16);
    let front = text.drop_last();
    assert(front.len() == 1 && front.last() == text[0]);
    assert(front.drop_last().len() == 0);
    assert(number(front, 16) == 16 * number(front.drop_last(), 16) + digit_value(front.last()));
}

} // verus!
