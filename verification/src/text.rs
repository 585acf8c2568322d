use vstd::prelude::*;

verus! {

/// Calls `String::push`: appends `c` to `s`, as its documentation says.
#[verifier::external_body]
pub(crate) fn push_char(s: &mut String, c: char)
    ensures
        final(s)@ == old(s)@.push(c),
{
    s.push(c);
}

/// The decimal digit `d` as a character.
pub open spec fn digit(d: nat) -> char {
    if d == 0 {
        '0'
    } else if d == 1 {
        '1'
    } else if d == 2 {
        '2'
    } else if d == 3 {
        '3'
    } else if d == 4 {
        '4'
    } else if d == 5 {
        '5'
    } else if d == 6 {
        '6'
    } else if d == 7 {
        '7'
    } else if d == 8 {
        '8'
    } else {
        '9'
    }
}

/// `n` written in decimal, without leading zeros.
pub open spec fn decimal(n: nat) -> Seq<char>
    decreases n,
{
    if n < 10 {
        seq![digit(n)]
    } else {
        decimal(n / 10).push(digit(n % 10))
    }
}

/// `c` is one of the characters '0' to '9'.
pub open spec fn is_decimal_digit(c: char) -> bool {
    '0' as int <= c as int && c as int <= '9' as int
}

/// The value of a decimal digit character.
pub open spec fn digit_value(c: char) -> int {
    c as int - '0' as int
}

/// The number that a string of decimal digits denotes.
pub open spec fn numeral_value(s: Seq<char>) -> int
    decreases s.len(),
{
    if s.len() == 0 {
        0
    } else {
        numeral_value(s.drop_last()) * 10 + digit_value(s.last())
    }
}

proof fn lemma_digit(d: nat)
    requires
        d < 10,
    ensures
        is_decimal_digit(digit(d)),
        digit_value(digit(d)) == d,
{
}

/// `decimal(n)` is the base-10 numeral of `n`: a non-empty string of decimal
/// digits that denotes `n`, with no leading zero unless `n` is zero.
pub proof fn decimal_is_the_numeral(n: nat)
    ensures
        decimal(n).len() > 0,
        forall|i: int| 0 <= i < decimal(n).len() ==> is_decimal_digit(#[trigger] decimal(n)[i]),
        numeral_value(decimal(n)) == n,
        decimal(n)[0] == '0' ==> n == 0,
        n < 10 ==> decimal(n).len() == 1,
        n >= 10 ==> decimal(n).len() == decimal(n / 10).len() + 1,
    decreases n,
{
    if n < 10 {
        lemma_digit(n);
        assert(decimal(n).drop_last() =~= Seq::<char>::empty());
        assert(numeral_value(Seq::<char>::empty()) == 0);
        assert(numeral_value(decimal(n)) == numeral_value(decimal(n).drop_last()) * 10
            + digit_value(decimal(n).last()));
    } else {
        decimal_is_the_numeral(n / 10);
        lemma_digit(n % 10);
        let d = decimal(n);
        let q = decimal(n / 10);
        assert(d == q.push(digit(n % 10)));
        assert(d.drop_last() =~= q);
        assert(numeral_value(d) == numeral_value(q) * 10 + digit_value(digit(n % 10)));
        assert((n / 10) * 10 + n % 10 == n);
        assert(d[0] == q[0]);
        assert forall|i: int| 0 <= i < d.len() implies is_decimal_digit(#[trigger] d[i]) by {
            if i < q.len() {
                assert(d[i] == q[i]);
            }
        }
    }
}

fn digit_char(d: u64) -> (c: char)
    requires
        d < 10,
    ensures
        c == digit(d as nat),
{
    if d == 0 {
        '0'
    } else if d == 1 {
        '1'
    } else if d == 2 {
        '2'
    } else if d == 3 {
        '3'
    } else if d == 4 {
        '4'
    } else if d == 5 {
        '5'
    } else if d == 6 {
        '6'
    } else if d == 7 {
        '7'
    } else if d == 8 {
        '8'
    } else {
        '9'
    }
}

/// Appends `n` in decimal to `s`.
pub fn push_decimal(s: &mut String, n: u64)
    ensures
        final(s)@ == old(s)@ + decimal(n as nat),
    decreases n,
{
    if n >= 10 {
        push_decimal(s, n / 10);
    }
    push_char(s, digit_char(n % 10));
    assert(decimal(n as nat) == if n < 10 {
        seq![digit(n as nat)]
    } else {
        decimal((n / 10) as nat).push(digit((n % 10) as nat))
    });
    if n < 10 {
        assert(n % 10 == n);
    }
    assert(final(s)@ =~= old(s)@ + decimal(n as nat));
}

} // verus!
