//! The wire format as mathematics.
//!
//! A frame is a length prefix followed by that many payload bytes. The
//! prefix writes the length in base 128, most significant group first, one
//! group per byte. Bit 7 of a byte is the continuation flag: it is set on
//! every group but the last.
use crate::error::FrameError;
use vstd::prelude::*;

verus! {

/// The continuation flag, bit 7 of a prefix byte.
pub const CONTINUATION: u8 = 0x80;

/// The seven value bits of a prefix byte.
pub const GROUP_MASK: u8 = 0x7f;

/// The number that a run of prefix bytes stands for: their low seven bits
/// read as base-128 digits, most significant first. The continuation flags
/// play no part in it.
pub open spec fn group_value(groups: Seq<u8>) -> nat
    decreases groups.len(),
{
    if groups.len() == 0 {
        0
    } else {
        group_value(groups.drop_last()) * 128 + (groups.last() % 128) as nat
    }
}

/// True if every byte of `s` has the continuation flag set.
pub open spec fn all_continuation(s: Seq<u8>) -> bool {
    forall|i: int| 0 <= i < s.len() ==> s[i] >= CONTINUATION
}

/// True if `h` is a complete length prefix: continuation groups followed by
/// exactly one terminator, which is its last byte.
pub open spec fn is_prefix(h: Seq<u8>) -> bool {
    &&& h.len() > 0
    &&& h.last() < CONTINUATION
    &&& all_continuation(h.drop_last())
}

/// True if `h` is a complete length prefix without a redundant leading group:
/// a first byte of `0x80` would add a zero digit in front.
pub open spec fn is_canonical(h: Seq<u8>) -> bool {
    is_prefix(h) && (h.len() > 1 ==> h[0] != CONTINUATION)
}

/// The digits of `n` written as continuation groups, most significant first.
/// Zero has no digits.
pub open spec fn continuation_groups(n: nat) -> Seq<u8>
    decreases n,
{
    if n == 0 {
        Seq::empty()
    } else {
        continuation_groups(n / 128).push((128 + n % 128) as u8)
    }
}

/// The length prefix that is written for `n`: the digits above the lowest as
/// continuation groups, then the lowest digit as the terminator.
pub open spec fn encoding(n: nat) -> Seq<u8> {
    continuation_groups(n / 128).push((n % 128) as u8)
}

/// How many bytes of `s` a reader of one length prefix looks at: everything
/// up to and including the first byte without the continuation flag, or all
/// of `s` if there is no such byte.
pub open spec fn scanned_len(s: Seq<u8>) -> nat
    decreases s.len(),
{
    if s.len() == 0 {
        0
    } else if s[0] < CONTINUATION {
        1
    } else {
        1 + scanned_len(s.skip(1))
    }
}

/// The bytes of `s` that a reader of one length prefix looks at.
pub open spec fn scanned(s: Seq<u8>) -> Seq<u8> {
    s.take(scanned_len(s) as int)
}

/// What reading one length prefix from the front of `s` gives, for a reader
/// that accepts lengths up to `limit`: the length and the number of bytes the
/// prefix occupies, or the reason why there is none.
///
/// A value above `limit` is an overflow whether or not the terminator was
/// reached: the digits read so far already exceed the limit. Otherwise the
/// prefix must end in a terminator; input that stops before one is truncated.
pub open spec fn parse_len(s: Seq<u8>, limit: nat) -> Result<(nat, nat), FrameError> {
    let h = scanned(s);
    if group_value(h) > limit {
        Err(FrameError::LengthOverflow)
    } else if is_prefix(h) {
        Ok((group_value(h), h.len()))
    } else {
        Err(FrameError::Truncated)
    }
}

/// The frame that carries `payload`: the encoding of its length, then the
/// payload itself.
pub open spec fn frame(payload: Seq<u8>) -> Seq<u8> {
    encoding(payload.len()) + payload
}

/// What reading one frame from the front of `s` gives, for a reader that
/// accepts payloads of up to `max_len` bytes: the payload and the number of
/// bytes the frame occupies, or the reason why there is none.
pub open spec fn parse_frame(s: Seq<u8>, max_len: nat) -> Result<(Seq<u8>, nat), FrameError> {
    match parse_len(s, max_len) {
        Err(e) => Err(e),
        Ok((len, used)) => if s.len() - used < len {
            Err(FrameError::Truncated)
        } else {
            Ok((s.subrange(used as int, (used + len) as int), used + len))
        },
    }
}

} // verus!
