//! Frames: a payload behind the prefix that gives its length.
use crate::codec::{read_len_within, write_len};
use crate::error::FrameError;
use crate::wire::{frame, parse_frame};
use vstd::prelude::*;
use vstd::slice::{slice_subrange, slice_to_vec};

verus! {

/// Appends the frame of `bytes` to `out`: the prefix for `bytes.len()`, then
/// `bytes` as they are.
pub fn write_lp_bytes(out: &mut Vec<u8>, bytes: &[u8])
    ensures
        final(out)@ == old(out)@ + frame(bytes@),
{
    write_len(out, bytes.len());
    out.extend_from_slice(bytes);
    assert(out@ =~= old(out)@ + frame(bytes@));
}

/// Reads one frame from the front of `input`, accepting payloads of up to
/// `max_len` bytes.
///
/// Gives the payload and the number of bytes that the frame occupies. The
/// length is held against `max_len` before anything is allocated for the
/// payload. Fails with `Truncated` if `input` ends inside the prefix or
/// holds fewer payload bytes than the prefix announces; no part of a
/// payload is ever handed out.
pub fn read_lp_bytes_within(input: &[u8], max_len: usize) -> (r: Result<
    (Vec<u8>, usize),
    FrameError,
>)
    ensures
        r matches Ok((payload, used)) ==> parse_frame(input@, max_len as nat) == Ok::<
            (Seq<u8>, nat),
            FrameError,
        >((payload@, used as nat)),
        r matches Err(e) ==> parse_frame(input@, max_len as nat) == Err::<
            (Seq<u8>, nat),
            FrameError,
        >(e),
        r matches Ok((payload, used)) ==> {
            &&& payload.len() <= max_len
            &&& payload.len() < used <= input.len()
            &&& payload@ == input@.subrange(used - payload.len(), used as int)
        },
{
    match read_len_within(input, max_len) {
        Err(e) => Err(e),
        Ok((len, used)) => {
            if input.len() - used < len {
                Err(FrameError::Truncated)
            } else {
                let end: usize = used + len;
                let payload = slice_to_vec(slice_subrange(input, used, end));
                Ok((payload, end))
            }
        },
    }
}

/// Reads one frame from the front of `input`, accepting every payload
/// length that fits a `usize`.
pub fn read_lp_bytes(input: &[u8]) -> (r: Result<(Vec<u8>, usize), FrameError>)
    ensures
        r matches Ok((payload, used)) ==> parse_frame(input@, usize::MAX as nat) == Ok::<
            (Seq<u8>, nat),
            FrameError,
        >((payload@, used as nat)),
        r matches Err(e) ==> parse_frame(input@, usize::MAX as nat) == Err::<
            (Seq<u8>, nat),
            FrameError,
        >(e),
        r matches Ok((payload, used)) ==> {
            &&& payload.len() < used <= input.len()
            &&& payload@ == input@.subrange(used - payload.len(), used as int)
        },
{
    read_lp_bytes_within(input, usize::MAX)
}

} // verus!
