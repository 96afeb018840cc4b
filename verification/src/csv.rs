//! The comma-separated rows in which measured run times are written out.

use vstd::prelude::*;

verus! {

/// The decimal digits of `n` as ASCII bytes, most significant first.
pub open spec fn decimal(n: nat) -> Seq<u8>
    decreases n,
{
    if n < 10 {
        seq![(48 + n) as u8]
    } else {
        decimal(n / 10).push((48 + n % 10) as u8)
    }
}

/// The values of `row` in decimal, separated by commas.
pub open spec fn csv_row_spec(row: Seq<u64>) -> Seq<u8>
    decreases row.len(),
{
    if row.len() == 0 {
        seq![]
    } else if row.len() == 1 {
        decimal(row[0] as nat)
    } else {
        csv_row_spec(row.drop_last()) + seq![44u8] + decimal(row.last() as nat)
    }
}

/// Appends the decimal digits of `n` to `out`.
fn push_decimal(out: &mut Vec<u8>, n: u64)
    ensures
        final(out)@ == old(out)@ + decimal(n as nat),
    decreases n,
{
    if n >= 10 {
        push_decimal(out, n / 10);
    }
    let digit: u8 = (n % 10) as u8;
    out.push(48u8 + digit);
    assert(final(out)@ =~= old(out)@ + decimal(n as nat)) by {
        if n >= 10 {
            assert(decimal(n as nat) == decimal((n / 10) as nat).push((48 + n % 10) as u8));
        }
    }
}

/// The values of `row` in decimal, separated by commas, as one CSV line
/// without its line break.
pub fn csv_row(row: &[u64]) -> (line: Vec<u8>)
    ensures
        line@ == csv_row_spec(row@),
{
    let mut line: Vec<u8> = Vec::new();
    let mut i: usize = 0;
    while i < row.len()
        invariant
            i <= row@.len(),
            line@ == csv_row_spec(row@.subrange(0, i as int)),
        decreases row@.len() - i,
    {
        let ghost before = line@;
        if i > 0 {
            line.push(44u8);
        }
        push_decimal(&mut line, row[i]);
        proof {
            let prefix = row@.subrange(0, i + 1);
            assert(prefix.drop_last() =~= row@.subrange(0, i as int));
            if i == 0 {
                assert(line@ =~= decimal(row@[0] as nat));
            } else {
                assert(line@ =~= before + seq![44u8] + decimal(row@[i as int] as nat));
            }
        }
        i = i + 1;
    }
    assert(row@.subrange(0, i as int) =~= row@);
    line
}

/// The number that a sequence of decimal digits spells.
pub open spec fn digits_value(digits: Seq<u8>) -> nat
    decreases digits.len(),
{
    if digits.len() == 0 {
        0
    } else {
        10 * digits_value(digits.drop_last()) + (digits.last() - 48) as nat
    }
}

/// The decimal form of `n` is made of the digits `0` to `9`, has no
/// leading zero unless it is `0` itself, and spells `n`.
pub proof fn lemma_decimal_spells(n: nat)
    ensures
        decimal(n).len() >= 1,
        n >= 10 ==> decimal(n).len() > 1,
        forall|i: int| 0 <= i < decimal(n).len() ==> 48 <= #[trigger] decimal(n)[i] <= 57,
        decimal(n).len() > 1 ==> decimal(n)[0] != 48,
        digits_value(decimal(n)) == n,
    decreases n,
{
    if n >= 10 {
        lemma_decimal_spells(n / 10);
        let prev = decimal(n / 10);
        assert(decimal(n) == prev.push((48 + n % 10) as u8));
        assert(decimal(n).drop_last() =~= prev);
        assert(decimal(n).last() == (48 + n % 10) as u8);
        assert(n == 10 * (n / 10) + n % 10) by {
            vstd::arithmetic::div_mod::lemma_fundamental_div_mod(n as int, 10);
        }
        assert(digits_value(decimal(n)) == 10 * digits_value(prev) + (n % 10));
        assert forall|i: int| 0 <= i < decimal(n).len() implies 48 <= #[trigger] decimal(n)[i]
            <= 57 by {
            if i < prev.len() {
                assert(decimal(n)[i] == prev[i]);
            }
        }
        assert(decimal(n)[0] == prev[0]);
        if n / 10 < 10 {
            assert(n / 10 >= 1);
            assert(prev[0] == (48 + n / 10) as u8);
        }
    } else {
        assert(decimal(n).drop_last() =~= Seq::<u8>::empty());
        assert(decimal(n).last() == (48 + n) as u8);
        assert(digits_value(decimal(n)) == 10 * digits_value(Seq::<u8>::empty()) + n);
    }
}

} // verus!
