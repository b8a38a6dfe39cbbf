//! Strings.
use vstd::prelude::*;
use vstd::string::StringExecFns;

verus! {

/// Compares two strings with `<str as PartialEq>::eq`, which holds exactly when they have the
/// same characters in the same order.
#[verifier::external_body]
pub(crate) fn same_text(left: &str, right: &str) -> (same: bool)
    ensures
        same == (left@ == right@),
{
    left == right
}

/// The character of a decimal digit.
pub open spec fn digit(value: nat) -> char
    recommends
        value < 10,
{
    (48 + value) as char
}

/// A number in decimal, without leading zeros.
pub open spec fn decimal(value: nat) -> Seq<char>
    decreases value,
{
    if value < 10 {
        seq![digit(value)]
    } else {
        decimal(value / 10).push(digit(value % 10))
    }
}

/// Writes one decimal digit.
fn digit_text(value: usize) -> (text: &'static str)
    requires
        value < 10,
    ensures
        text@ == seq![digit(value as nat)],
{
    proof {
        reveal_strlit("0");
        reveal_strlit("1");
        reveal_strlit("2");
        reveal_strlit("3");
        reveal_strlit("4");
        reveal_strlit("5");
        reveal_strlit("6");
        reveal_strlit("7");
        reveal_strlit("8");
        reveal_strlit("9");
    }
    let text: &'static str = match value {
        0 => "0",
        1 => "1",
        2 => "2",
        3 => "3",
        4 => "4",
        5 => "5",
        6 => "6",
        7 => "7",
        8 => "8",
        _ => "9",
    };
    assert(text@ =~= seq![digit(value as nat)]);
    text
}

/// Writes a number in decimal.
pub fn decimal_text(value: usize) -> (text: String)
    ensures
        text@ == decimal(value as nat),
    decreases value,
{
    if value < 10 {
        digit_text(value).to_owned()
    } else {
        let mut text: String = decimal_text(value / 10);
        text.append(digit_text(value % 10));
        assert(text@ =~= decimal(value as nat));
        text
    }
}

/// A number below ten is one digit, and any other is the number of its tens and its last digit.
pub proof fn law_decimal(value: nat)
    ensures
        value == 0 ==> decimal(value) == seq!['0'],
        value == 1 ==> decimal(value) == seq!['1'],
        value == 2 ==> decimal(value) == seq!['2'],
        value == 3 ==> decimal(value) == seq!['3'],
        value == 4 ==> decimal(value) == seq!['4'],
        value == 5 ==> decimal(value) == seq!['5'],
        value == 6 ==> decimal(value) == seq!['6'],
        value == 7 ==> decimal(value) == seq!['7'],
        value == 8 ==> decimal(value) == seq!['8'],
        value == 9 ==> decimal(value) == seq!['9'],
        value >= 10 ==> decimal(value) == decimal(value / 10) + decimal(value % 10),
{
    if value >= 10 {
        assert(decimal(value % 10) =~= seq![digit(value % 10)]);
        assert(decimal(value) =~= decimal(value / 10) + decimal(value % 10));
    }
}

/// Different numbers are written differently.
pub proof fn law_decimal_is_unique(left: nat, right: nat)
    requires
        decimal(left) == decimal(right),
    ensures
        left == right,
    decreases left,
{
    let (l, r) = (decimal(left), decimal(right));
    if left >= 10 {
        assert(l.drop_last() =~= decimal(left / 10));
        assert(decimal(left / 10).len() > 0);
    }
    if right >= 10 {
        assert(r.drop_last() =~= decimal(right / 10));
        assert(decimal(right / 10).len() > 0);
    }
    assert(l.last() == digit(left % 10));
    assert(r.last() == digit(right % 10));
    if left >= 10 && right >= 10 {
        law_decimal_is_unique(left / 10, right / 10);
    }
}

} // verus!
