//! Small text helpers: decimal rendering of integers and the `MM:SS`
//! rendering of a play duration.

use vstd::prelude::*;

verus! {

/// The ASCII decimal digits of `n`, most significant first.
pub open spec fn dec_digits(n: nat) -> Seq<u8>
    decreases n,
{
    if n < 10 {
        seq![(48 + n) as u8]
    } else {
        dec_digits(n / 10).push((48 + n % 10) as u8)
    }
}

/// The ASCII decimal digits of `n`, zero-padded on the left to width 2.
pub open spec fn pad2_digits(n: nat) -> Seq<u8> {
    if n < 10 {
        seq![48u8] + dec_digits(n)
    } else {
        dec_digits(n)
    }
}

/// A duration in milliseconds rendered as `MM:SS` (minutes grow past two
/// digits when they need to).
pub open spec fn duration_text(ms: nat) -> Seq<u8> {
    pad2_digits(ms / 1000 / 60) + seq![58u8] + pad2_digits(ms / 1000 % 60)
}

/// Appends the decimal digits of `n` to `out`.
pub fn push_dec_u64(out: &mut Vec<u8>, n: u64)
    ensures
        final(out)@ == old(out)@ + dec_digits(n as nat),
    decreases n,
{
    if n < 10 {
        out.push((48 + n) as u8);
        assert(final(out)@ == old(out)@ + dec_digits(n as nat));
    } else {
        push_dec_u64(out, n / 10);
        out.push((48 + n % 10) as u8);
        assert(final(out)@ == old(out)@ + dec_digits(n as nat));
    }
}

/// Appends the decimal digits of `n` to `out`, zero-padded to width 2.
pub fn push_pad2_u64(out: &mut Vec<u8>, n: u64)
    ensures
        final(out)@ == old(out)@ + pad2_digits(n as nat),
{
    if n < 10 {
        out.push(48u8);
    }
    push_dec_u64(out, n);
}

/// Renders a duration given in milliseconds as ASCII `MM:SS`.
pub fn format_duration(duration: u32) -> (r: Vec<u8>)
    ensures
        r@ == duration_text(duration as nat),
{
    let secs = duration / 1000;
    let minutes = secs / 60;
    let seconds = secs % 60;
    let mut out: Vec<u8> = Vec::new();
    push_pad2_u64(&mut out, minutes as u64);
    out.push(58u8);
    push_pad2_u64(&mut out, seconds as u64);
    out
}

} // verus!
