use vstd::prelude::*;
use crate::model::{decimal, escape, line_prefix, spaces, NL, TAB};

verus! {

/// Appends the non-printing notation of `b`.
pub fn push_escape(b: u8, out: &mut Vec<u8>)
    ensures
        final(out)@ == old(out)@ + escape(b),
{
    let nested = b >= 128;
    let v: u8 = if nested {
        out.push(77);
        out.push(45);
        b - 128
    } else {
        b
    };
    if (32 <= v && v <= 126) || (!nested && (v == TAB || v == NL)) {
        out.push(v);
    } else if v == 127 {
        out.push(94);
        out.push(63);
    } else {
        out.push(94);
        out.push(v + 64);
    }
}

/// The non-printing notation of `b`: `^A` for 0x01, `^?` for 0x7F, `M-^A`
/// for 0x81, the byte itself for a printable one.
pub fn escape_byte(b: u8) -> (r: Vec<u8>)
    ensures
        r@ == escape(b),
{
    let mut r: Vec<u8> = Vec::new();
    push_escape(b, &mut r);
    r
}

/// Appends the decimal digits of `n`.
fn push_decimal(n: u128, out: &mut Vec<u8>)
    ensures
        final(out)@ == old(out)@ + decimal(n as nat),
    decreases n,
{
    if n >= 10 {
        push_decimal(n / 10, out);
    }
    out.push((n % 10) as u8 + 48);
}

/// Appends the prefix of line number `n`.
pub fn push_line_prefix(n: u128, out: &mut Vec<u8>)
    ensures
        final(out)@ == old(out)@ + line_prefix(n as nat),
{
    let mut digits: Vec<u8> = Vec::new();
    push_decimal(n, &mut digits);
    let ghost start = out@;
    let mut k: usize = digits.len();
    while k < 6
        invariant
            digits.len() <= k <= 6 || k == digits.len(),
            out@ == start + spaces((k - digits.len()) as nat),
        decreases 6 - k,
    {
        out.push(32);
        k = k + 1;
        proof {
            assert(spaces((k - digits.len()) as nat) == spaces((k - 1 - digits.len()) as nat).push(32u8));
        }
    }
    out.append(&mut digits);
    out.push(32);
    out.push(32);
}

} // verus!
