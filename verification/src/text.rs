//! Numbers as text.
use vstd::prelude::*;
use vstd::string::*;

verus! {

/// A digit in lower case, up to base 16.
pub open spec fn digit(d: nat) -> char {
    if d < 10 {
        ('0' as u32 + d) as char
    } else {
        ('a' as u32 + d - 10) as char
    }
}

/// A number in decimal, without leading zeros.
pub open spec fn decimal_of(n: nat) -> Seq<char>
    decreases n,
{
    if n < 10 {
        seq![digit(n)]
    } else {
        decimal_of(n / 10).push(digit(n % 10))
    }
}

/// A number below 0x10000 as four hexadecimal digits.
pub open spec fn hex4_of(n: nat) -> Seq<char> {
    seq![
        digit(n / 0x1000 % 16),
        digit(n / 0x100 % 16),
        digit(n / 0x10 % 16),
        digit(n % 16),
    ]
}

fn digit_text(d: usize) -> (r: &'static str)
    requires
        d < 16,
    ensures
        r@ == seq![digit(d as nat)],
{
    proof {
        reveal_strlit("0");
        reveal_strlit("1");
        reveal_strlit("2");
        reveal_strlit("3");
        reveal_strlit("4");
        reveal_strlit("5");
        reveal_strlit("6");
        reveal_strlit("7");
        reveal_strlit("8");
        reveal_strlit("9");
        reveal_strlit("a");
        reveal_strlit("b");
        reveal_strlit("c");
        reveal_strlit("d");
        reveal_strlit("e");
        reveal_strlit("f");
    }
    match d {
        0 => "0",
        1 => "1",
        2 => "2",
        3 => "3",
        4 => "4",
        5 => "5",
        6 => "6",
        7 => "7",
        8 => "8",
        9 => "9",
        10 => "a",
        11 => "b",
        12 => "c",
        13 => "d",
        14 => "e",
        _ => "f",
    }
}

/// A number in decimal.
pub fn decimal(n: usize) -> (r: String)
    ensures
        r@ == decimal_of(n as nat),
    decreases n,
{
    if n < 10 {
        digit_text(n).to_string()
    } else {
        let mut r: String = decimal(n / 10);
        r.append(digit_text(n % 10));
        assert(r@ =~= decimal_of(n as nat));
        r
    }
}

/// A number as four hexadecimal digits.
pub fn hex4(n: u16) -> (r: String)
    ensures
        r@ == hex4_of(n as nat),
{
    let v: usize = n as usize;
    let mut r: String = digit_text(v / 0x1000 % 16).to_string();
    r.append(digit_text(v / 0x100 % 16));
    r.append(digit_text(v / 0x10 % 16));
    r.append(digit_text(v % 16));
    assert(r@ =~= hex4_of(n as nat));
    r
}

/// What a digit counts.
pub open spec fn worth(c: char) -> int {
    if c as int >= 97 {
        c as int - 87
    } else {
        c as int - 48
    }
}

/// The number that a text stands for in a base, its last digit counting once.
pub open spec fn number_in(text: Seq<char>, base: int) -> int
    decreases text.len(),
{
    if text.len() == 0 {
        0
    } else {
        base * number_in(text.drop_last(), base) + worth(text.last())
    }
}

/// The decimal form of a number is made of the digits `0` to `9`, does not begin with `0`
/// unless it is that digit alone, and stands for the number.
pub proof fn law_decimals_stand_for_their_number(n: nat)
    ensures
        ({
            let text = decimal_of(n);
            &&& text.len() >= 1
            &&& forall|i: int| 0 <= i < text.len() ==> 48 <= #[trigger] text[i] as int <= 57
            &&& text.len() > 1 ==> text[0] as int != 48
            &&& number_in(text, 10) == n
        }),
    decreases n,
{
    let text = decimal_of(n);
    if n < 10 {
        assert(text.drop_last().len() == 0);
        assert(number_in(text.drop_last(), 10) == 0);
    } else {
        law_decimals_stand_for_their_number(n / 10);
        let higher = decimal_of(n / 10);
        assert(text.drop_last() =~= higher);
        assert(text[0] == higher[0]);
        if higher.len() == 1 {
            assert(higher.drop_last().len() == 0);
            assert(number_in(higher.drop_last(), 10) == 0);
            assert(worth(higher[0]) == n / 10);
        }
    }
}

/// The four hexadecimal digits of a number are `0` to `9` and `a` to `f`, and stand for it.
pub proof fn law_four_hex_digits_stand_for_their_number(n: nat)
    requires
        n < 0x10000,
    ensures
        ({
            let text = hex4_of(n);
            &&& text.len() == 4
            &&& forall|i: int|
                0 <= i < 4 ==> 48 <= #[trigger] text[i] as int <= 57 || 97 <= text[i] as int <= 102
            &&& number_in(text, 16) == n
        }),
{
    let text = hex4_of(n);
    reveal_with_fuel(number_in, 5);
    assert(number_in(text.drop_last().drop_last().drop_last().drop_last(), 16) == 0);
    assert(worth(text[0]) == n / 0x1000 % 16);
    assert(worth(text[1]) == n / 0x100 % 16);
    assert(worth(text[2]) == n / 0x10 % 16);
    assert(worth(text[3]) == n % 16);
}

} // verus!
