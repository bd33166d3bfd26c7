//! Human-readable byte counts for the report.
use vstd::prelude::*;
use crate::text::{decimal_text, digit_char, push_char, push_decimal};

verus! {

/// `v / unit` in hundredths, rounded to the nearest, halves up.
pub open spec fn hundredths(v: nat, unit: nat) -> nat {
    ((v * 100 + unit / 2) / unit) as nat
}

/// `h` hundredths written with two decimals, as `12.34`.
pub open spec fn two_decimals(h: nat) -> Seq<char> {
    decimal_text(h / 100) + seq!['.', digit_char((h % 100) / 10), digit_char(h % 10)]
}

/// `X B` up to 1000 bytes, `X.XX KB` up to a million, `X.XX MB` above.
pub open spec fn size_text(v: nat) -> Seq<char> {
    if v > 1_000_000 {
        two_decimals(hundredths(v, 1_000_000)) + " MB"@
    } else if v > 1_000 {
        two_decimals(hundredths(v, 1_000)) + " KB"@
    } else {
        decimal_text(v) + " B"@
    }
}

fn push_two_decimals(s: &mut String, v: usize, unit: u64)
    requires
        unit == 1_000 || unit == 1_000_000,
    ensures
        final(s)@ == old(s)@ + two_decimals(hundredths(v as nat, unit as nat)),
{
    let h: u128 = (v as u128 * 100 + (unit / 2) as u128) / unit as u128;
    assert(h == hundredths(v as nat, unit as nat));
    assert(h / 100 <= v) by (nonlinear_arith)
        requires
            h == (v * 100 + unit / 2) / (unit as int),
            unit >= 1000;
    push_decimal(s, (h / 100) as u64);
    push_char(s, '.');
    let tens = ((h % 100) / 10) as u8;
    let ones = (h % 10) as u8;
    push_char(s, (tens + 48) as char);
    push_char(s, (ones + 48) as char);
    proof {
        assert(digit_char(((h % 100) / 10) as nat) == (tens + 48) as char);
        assert(digit_char((h % 10) as nat) == (ones + 48) as char);
        assert(final(s)@ =~= old(s)@ + two_decimals(h as nat));
    }
}

/// The byte count `received_data_value` for the report.
pub fn format_received_data_value(received_data_value: usize) -> (r: String)
    ensures
        r@ == size_text(received_data_value as nat),
{
    let mut r = String::new();
    if received_data_value > 1_000_000 {
        push_two_decimals(&mut r, received_data_value, 1_000_000);
        r.append(" MB");
    } else if received_data_value > 1_000 {
        push_two_decimals(&mut r, received_data_value, 1_000);
        r.append(" KB");
    } else {
        push_decimal(&mut r, received_data_value as u64);
        r.append(" B");
    }
    assert(r@ =~= size_text(received_data_value as nat));
    r
}

} // verus!
