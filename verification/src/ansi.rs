//! The cursor-control bytes that erase a frame, and line counting.
use vstd::prelude::*;

verus! {

/// The number of line breaks in `s`.
pub open spec fn count_newlines(s: Seq<u8>) -> nat
    decreases s.len(),
{
    if s.len() == 0 {
        0
    } else {
        count_newlines(s.drop_last()) + if s.last() == 10u8 {
            1nat
        } else {
            0nat
        }
    }
}

/// The decimal digits of `n` in ASCII, most significant first.
pub open spec fn decimal(n: nat) -> Seq<u8>
    decreases n,
{
    if n < 10 {
        seq![(48 + n) as u8]
    } else {
        decimal(n / 10).push((48 + n % 10) as u8)
    }
}

/// The bytes that erase a frame of `lines` lines: carriage return, cursor
/// up by `lines`, erase the line, erase to the end of the screen. Nothing
/// for a frame without lines.
pub open spec fn clear_sequence(lines: nat) -> Seq<u8> {
    if lines == 0 {
        Seq::empty()
    } else {
        seq![13u8, 27u8, 91u8] + decimal(lines) + seq![65u8, 27u8, 91u8, 50u8, 75u8, 27u8, 91u8, 74u8]
    }
}

/// A sequence has no more line breaks than bytes.
pub proof fn lemma_count_bounded(s: Seq<u8>)
    ensures
        count_newlines(s) <= s.len(),
    decreases s.len(),
{
    if s.len() > 0 {
        lemma_count_bounded(s.drop_last());
    }
}

/// Appends the decimal digits of `n` to `out`.
pub fn push_decimal(out: &mut Vec<u8>, n: usize)
    ensures
        final(out)@ == old(out)@ + decimal(n as nat),
    decreases n,
{
    if n >= 10 {
        push_decimal(out, n / 10);
    }
    let digit: u8 = (n % 10) as u8;
    out.push(48u8 + digit);
    assert(out@ =~= old(out)@ + decimal(n as nat));
}

/// Appends to `out` the bytes that erase a frame of `lines` lines.
pub fn push_clear_sequence(out: &mut Vec<u8>, lines: usize)
    ensures
        final(out)@ == old(out)@ + clear_sequence(lines as nat),
{
    if lines > 0 {
        out.push(13u8);
        out.push(27u8);
        out.push(91u8);
        push_decimal(out, lines);
        out.push(65u8);
        out.push(27u8);
        out.push(91u8);
        out.push(50u8);
        out.push(75u8);
        out.push(27u8);
        out.push(91u8);
        out.push(74u8);
        assert(out@ =~= old(out)@ + clear_sequence(lines as nat));
    } else {
        assert(out@ =~= old(out)@ + clear_sequence(lines as nat));
    }
}

} // verus!
