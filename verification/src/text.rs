use vstd::prelude::*;

verus! {

/// `a` followed by `b`, as a new string (through `format!`).
#[verifier::external_body]
pub(crate) fn join(a: &str, b: &str) -> (res: String)
    ensures
        res@ == a@ + b@,
{
    format!("{a}{b}")
}

/// The decimal digits of `n`, most significant first (`"0"` for zero).
pub open spec fn spec_decimal(n: nat) -> Seq<char>
    decreases n,
{
    if n < 10 {
        seq![spec_digit_char(n)]
    } else {
        spec_decimal(n / 10).push(spec_digit_char(n % 10))
    }
}

pub open spec fn spec_digit_char(d: nat) -> char {
    if d == 0 { '0' }
    else if d == 1 { '1' }
    else if d == 2 { '2' }
    else if d == 3 { '3' }
    else if d == 4 { '4' }
    else if d == 5 { '5' }
    else if d == 6 { '6' }
    else if d == 7 { '7' }
    else if d == 8 { '8' }
    else { '9' }
}

/// `n` written in decimal (through `usize::to_string`).
#[verifier::external_body]
pub(crate) fn decimal(n: usize) -> (res: String)
    ensures
        res@ == spec_decimal(n as nat),
{
    n.to_string()
}

} // verus!
