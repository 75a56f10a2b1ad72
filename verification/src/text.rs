//! Texts: numbers, quoted strings and concatenation.
use vstd::prelude::*;
use vstd::string::StringExecFns;

verus! {

/// The decimal digit of a number below 10.
pub open spec fn digit(n: nat) -> char
    recommends
        n < 10,
{
    (('0' as nat + n) as char)
}

/// A number in decimal digits.
pub open spec fn decimal(n: nat) -> Seq<char>
    decreases n,
{
    if n < 10 {
        seq![digit(n)]
    } else {
        decimal(n / 10).push(digit(n % 10))
    }
}

/// The number that digits stand for.
pub open spec fn number(digits: Seq<char>) -> nat
    decreases digits.len(),
{
    if digits.len() == 0 {
        0
    } else {
        number(digits.drop_last()) * 10 + (digits.last() as nat - '0' as nat) as nat
    }
}

/// A number can be read back from its digits, which begin with 0 only where they are no
/// more than that.
pub proof fn law_decimal_can_be_read_back(n: nat)
    ensures
        number(decimal(n)) == n,
        decimal(n).len() > 0,
        forall|i: int| 0 <= i < decimal(n).len() ==> '0' <= #[trigger] decimal(n)[i] <= '9',
        decimal(n)[0] == '0' ==> decimal(n).len() == 1,
    decreases n,
{
    if n < 10 {
        let digits = decimal(n);
        assert(digits =~= seq![digit(n)]);
        assert(digits.drop_last() =~= Seq::empty());
        assert(number(digits.drop_last()) == 0);
    } else {
        law_decimal_can_be_read_back(n / 10);
        let digits = decimal(n);
        assert(digits.drop_last() =~= decimal(n / 10));
        assert(digits.last() == digit(n % 10));
        assert(n == (n / 10) * 10 + n % 10);
        assert(digits[0] == decimal(n / 10)[0]);
        if decimal(n / 10)[0] == '0' {
            let rest = decimal(n / 10);
            assert(rest.drop_last() =~= Seq::empty());
            assert(number(rest.drop_last()) == 0);
            assert(rest.last() == '0');
            assert(number(rest) == 0);
        }
        assert forall|i: int| 0 <= i < digits.len() implies '0' <= #[trigger] digits[i] <= '9' by {
            if i < digits.len() - 1 {
                assert(digits[i] == decimal(n / 10)[i]);
            }
        }
    }
}

/// What the `Debug` formatting of a string gives: the string in double quotes, with
/// some characters escaped.
pub uninterp spec fn quotation(text: Seq<char>) -> Seq<char>;

/// The `Debug` formatting of `str`, through `std::format!`. Its result depends on the
/// string alone.
#[verifier::external_body]
pub(crate) fn quoted(text: &str) -> (res: String)
    ensures
        res@ == quotation(text@),
{
    format!("{:?}", text)
}

fn digit_text(n: u8) -> (res: &'static str)
    requires
        n < 10,
    ensures
        res@ == seq![digit(n as nat)],
{
    proof {
        reveal_strlit("0");
        reveal_strlit("1");
        reveal_strlit("2");
        reveal_strlit("3");
        reveal_strlit("4");
        reveal_strlit("5");
        reveal_strlit("6");
        reveal_strlit("7");
        reveal_strlit("8");
        reveal_strlit("9");
    }
    let res: &'static str = match n {
        0 => "0",
        1 => "1",
        2 => "2",
        3 => "3",
        4 => "4",
        5 => "5",
        6 => "6",
        7 => "7",
        8 => "8",
        _ => "9",
    };
    assert(res@ =~= seq![digit(n as nat)]);
    res
}

/// `n` in decimal digits.
pub fn decimal_text(n: u128) -> (res: String)
    ensures
        res@ == decimal(n as nat),
    decreases n,
{
    let last: &'static str = digit_text((n % 10) as u8);
    if n < 10 {
        last.to_owned()
    } else {
        let mut res: String = decimal_text(n / 10);
        res.append(last);
        assert(res@ =~= decimal(n as nat / 10).push(digit(n as nat % 10)));
        res
    }
}

} // verus!
