//! The names of nodes: the decimal numerals of the numbers that a counter
//! counts, and the marker that stands for the start of every run.

use vstd::prelude::*;
use vstd::string::StringExecFns;

verus! {

/// The entry of `incoming` that marks a node as initial. No numeral equals it.
pub const INIT: &'static str = "INIT";

/// The character of the digit `d`.
pub open spec fn digit(d: nat) -> char {
    if d == 0 {
        '0'
    } else if d == 1 {
        '1'
    } else if d == 2 {
        '2'
    } else if d == 3 {
        '3'
    } else if d == 4 {
        '4'
    } else if d == 5 {
        '5'
    } else if d == 6 {
        '6'
    } else if d == 7 {
        '7'
    } else if d == 8 {
        '8'
    } else {
        '9'
    }
}

/// The decimal numeral of `n`, most significant digit first, without leading zeros.
pub open spec fn decimal(n: nat) -> Seq<char>
    decreases n,
{
    if n < 10 {
        seq![digit(n)]
    } else {
        decimal(n / 10).push(digit(n % 10))
    }
}

/// The character is one of the ten digits.
pub open spec fn is_digit(c: char) -> bool {
    exists|d: nat| d < 10 && c == #[trigger] digit(d)
}

/// A numeral has a digit at least, and digits only.
pub proof fn lemma_decimal_is_digits(n: nat)
    ensures
        decimal(n).len() >= 1,
        forall|i: int| 0 <= i < decimal(n).len() ==> is_digit(#[trigger] decimal(n)[i]),
    decreases n,
{
    if n < 10 {
        assert(is_digit(digit(n)));
    } else {
        lemma_decimal_is_digits(n / 10);
        assert(is_digit(digit(n % 10)));
    }
}

/// Different numbers have different numerals.
pub proof fn lemma_decimal_injective(a: nat, b: nat)
    requires
        decimal(a) == decimal(b),
    ensures
        a == b,
    decreases a,
{
    lemma_decimal_is_digits(a / 10);
    lemma_decimal_is_digits(b / 10);
    if a < 10 {
        assert(decimal(a)[0] == digit(a));
        if b >= 10 {
            assert(decimal(b).len() >= 2);
        } else {
            assert(decimal(b)[0] == digit(b));
        }
    } else {
        if b < 10 {
            assert(decimal(a).len() >= 2);
        } else {
            let head_a = decimal(a / 10);
            let head_b = decimal(b / 10);
            assert(decimal(a).last() == digit(a % 10));
            assert(decimal(b).last() == digit(b % 10));
            assert(decimal(a).drop_last() =~= head_a);
            assert(decimal(b).drop_last() =~= head_b);
            lemma_decimal_injective(a / 10, b / 10);
        }
    }
}

/// The initial marker is no numeral.
pub proof fn lemma_init_is_no_numeral(n: nat)
    ensures
        decimal(n) != INIT@,
{
    reveal_strlit("INIT");
    lemma_decimal_is_digits(n);
    let first = decimal(n)[0];
    assert(is_digit(first));
    assert(INIT@[0] == 'I');
}

/// The digit `d` as text.
fn digit_text(d: u8) -> (text: &'static str)
    requires
        d < 10,
    ensures
        text@ == seq![digit(d as nat)],
{
    proof {
        reveal_strlit("0");
        reveal_strlit("1");
        reveal_strlit("2");
        reveal_strlit("3");
        reveal_strlit("4");
        reveal_strlit("5");
        reveal_strlit("6");
        reveal_strlit("7");
        reveal_strlit("8");
        reveal_strlit("9");
    }
    let text = if d == 0 {
        "0"
    } else if d == 1 {
        "1"
    } else if d == 2 {
        "2"
    } else if d == 3 {
        "3"
    } else if d == 4 {
        "4"
    } else if d == 5 {
        "5"
    } else if d == 6 {
        "6"
    } else if d == 7 {
        "7"
    } else if d == 8 {
        "8"
    } else {
        "9"
    };
    assert(text@ =~= seq![digit(d as nat)]);
    text
}

/// Writes the numeral of `number` behind what `name` holds.
fn append_numeral(number: u64, name: &mut String)
    ensures
        final(name)@ == old(name)@ + decimal(number as nat),
    decreases number,
{
    if number >= 10 {
        append_numeral(number / 10, name);
    }
    name.append(digit_text((number % 10) as u8));
    assert(name@ =~= old(name)@ + decimal(number as nat));
}

/// The name of the node with sequence number `number`.
pub fn numeral(number: u64) -> (name: String)
    ensures
        name@ == decimal(number as nat),
{
    let mut name = String::new();
    append_numeral(number, &mut name);
    assert(name@ =~= decimal(number as nat));
    name
}

} // verus!
