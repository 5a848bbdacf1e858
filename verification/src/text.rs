//! Building strings: characters, decimal numbers and the messages of the
//! machine's errors.
use vstd::prelude::*;

verus! {

/// `String::push` appends one character.
pub assume_specification[ String::push ](s: &mut String, ch: char)
    ensures
        final(s)@ == old(s)@.push(ch),
;

/// The decimal digit for `d` (below 10).
pub open spec fn digit(d: nat) -> char {
    (d + 48) as char
}

/// The decimal notation of `n`, without leading zeros.
pub open spec fn decimal(n: nat) -> Seq<char>
    decreases n,
{
    if n < 10 {
        seq![digit(n)]
    } else {
        decimal(n / 10).push(digit(n % 10))
    }
}

/// Appends the decimal notation of `n`.
pub fn push_decimal(s: &mut String, n: u8)
    ensures
        final(s)@ == old(s)@ + decimal(n as nat),
{
    proof {
        reveal_with_fuel(decimal, 3);
    }
    if n >= 100 {
        s.push(((n / 100) + 48u8) as char);
        s.push((((n / 10) % 10) + 48u8) as char);
        s.push(((n % 10) + 48u8) as char);
        assert(decimal(n as nat) =~= seq![digit((n / 100) as nat), digit(((n / 10) % 10) as nat), digit((n % 10) as nat)]);
    } else if n >= 10 {
        s.push(((n / 10) + 48u8) as char);
        s.push(((n % 10) + 48u8) as char);
        assert(decimal(n as nat) =~= seq![digit((n / 10) as nat), digit((n % 10) as nat)]);
    } else {
        s.push((n + 48u8) as char);
    }
    assert(s@ =~= old(s)@ + decimal(n as nat));
}

} // verus!
