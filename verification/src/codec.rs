//! The length codec: a length to its prefix bytes, and prefix bytes back to
//! the length.
use crate::error::FrameError;
use crate::lemmas::{
    lemma_parse_len_decided, lemma_scanned_after_continuation, lemma_scanned_shape,
    lemma_scanned_unterminated, lemma_value_push,
};
use crate::wire::{
    all_continuation, continuation_groups, encoding, group_value, parse_len, CONTINUATION,
    GROUP_MASK,
};
use vstd::prelude::*;

verus! {

/// The bytes of `groups` in the opposite order.
fn reversed(groups: &Vec<u8>) -> (out: Vec<u8>)
    ensures
        out@ == groups@.reverse(),
{
    let mut out: Vec<u8> = Vec::new();
    let mut i: usize = groups.len();
    while i > 0
        invariant
            i <= groups.len(),
            out.len() == groups.len() - i,
            forall|j: int| 0 <= j < out.len() ==> out[j] == groups[groups.len() - 1 - j],
        decreases i,
    {
        i = i - 1;
        out.push(groups[i]);
    }
    assert(out@ =~= groups@.reverse());
    out
}

/// Encodes `len` as a length prefix.
///
/// The length is cut into groups of seven bits from the low end; the groups
/// are then put most significant first, each but the last with the
/// continuation flag set. Zero is the single byte `0x00`.
pub fn encode_len(len: usize) -> (out: Vec<u8>)
    ensures
        out@ == encoding(len as nat),
{
    let mut groups: Vec<u8> = Vec::new();
    let low: u8 = (len & 0x7f) as u8;
    let mut rest: usize = len >> 7;
    assert(low == len % 128 && rest == len / 128) by (bit_vector)
        requires
            low == (len & 0x7f) as u8,
            rest == len >> 7,
    ;
    groups.push(low);
    assert(continuation_groups(rest as nat) + groups@.reverse() =~= encoding(len as nat));
    while rest > 0
        invariant
            continuation_groups(rest as nat) + groups@.reverse() == encoding(len as nat),
        decreases rest,
    {
        let group: u8 = ((rest & 0x7f) as u8) | CONTINUATION;
        let above: usize = rest >> 7;
        assert(group == 128 + rest % 128 && above == rest / 128) by (bit_vector)
            requires
                group == ((rest & 0x7f) as u8) | 0x80u8,
                above == rest >> 7,
        ;
        let ghost before = groups@;
        groups.push(group);
        assert(continuation_groups(above as nat) + groups@.reverse() =~= continuation_groups(
            rest as nat,
        ) + before.reverse());
        rest = above;
    }
    assert(continuation_groups(0) + groups@.reverse() =~= groups@.reverse());
    reversed(&groups)
}

/// Appends the length prefix of `len` to `out`.
pub fn write_len(out: &mut Vec<u8>, len: usize)
    ensures
        final(out)@ == old(out)@ + encoding(len as nat),
{
    let prefix = encode_len(len);
    out.extend_from_slice(prefix.as_slice());
}

/// Reads a length prefix one byte at a time.
///
/// The caller gets the bytes from wherever they come and pushes each into
/// the decoder; the decoder says whether it needs another. Its view is the
/// bytes pushed so far.
pub struct LenDecoder {
    acc: usize,
    limit: usize,
    seen: Ghost<Seq<u8>>,
}

/// What a decoder says after one more byte.
pub enum LenStep {
    /// The byte was a continuation group: push the next byte into the
    /// decoder given here.
    NeedMore(LenDecoder),
    /// The byte was the terminator: this is the length.
    Complete(usize),
    /// With this byte the length exceeds what the decoder accepts.
    Overflow,
}

impl View for LenDecoder {
    type V = Seq<u8>;

    closed spec fn view(&self) -> Seq<u8> {
        self.seen@
    }
}

impl LenDecoder {
    #[verifier::type_invariant]
    spec fn inv(self) -> bool {
        &&& all_continuation(self.seen@)
        &&& self.acc == group_value(self.seen@)
        &&& self.acc <= self.limit
    }

    /// The largest length that this decoder accepts.
    pub closed spec fn limit(&self) -> nat {
        self.limit as nat
    }

    /// A decoder that has seen no byte and accepts every length that fits
    /// a `usize`.
    pub fn new() -> (d: LenDecoder)
        ensures
            d@ == Seq::<u8>::empty(),
            d.limit() == usize::MAX,
    {
        LenDecoder::with_limit(usize::MAX)
    }

    /// A decoder that has seen no byte and accepts lengths up to `limit`.
    pub fn with_limit(limit: usize) -> (d: LenDecoder)
        ensures
            d@ == Seq::<u8>::empty(),
            d.limit() == limit,
    {
        LenDecoder { acc: 0, limit, seen: Ghost(Seq::empty()) }
    }

    /// Takes the next byte of the prefix.
    ///
    /// The accumulated value moves up by one group and the low seven bits
    /// of `byte` are added. The answer is what reading the bytes seen so
    /// far, with `byte` behind them, gives: a length, an overflow, or,
    /// while no terminator has come, a decoder that has seen one byte more.
    pub fn push(self, byte: u8) -> (step: LenStep)
        ensures
            match step {
                LenStep::NeedMore(next) => {
                    &&& next@ == self@.push(byte)
                    &&& next.limit() == self.limit()
                    &&& parse_len(next@, self.limit()) == Err::<(nat, nat), FrameError>(
                        FrameError::Truncated,
                    )
                },
                LenStep::Complete(len) => parse_len(self@.push(byte), self.limit()) == Ok::<
                    (nat, nat),
                    FrameError,
                >((len as nat, self@.len() + 1)),
                LenStep::Overflow => parse_len(self@.push(byte), self.limit()) == Err::<
                    (nat, nat),
                    FrameError,
                >(FrameError::LengthOverflow),
            },
    {
        proof {
            use_type_invariant(&self);
        }
        let acc: usize = self.acc;
        let limit: usize = self.limit;
        let low: usize = (byte & GROUP_MASK) as usize;
        let ghost all = self.seen@.push(byte);
        proof {
            assert(low == byte % 128) by (bit_vector)
                requires
                    low == (byte & 0x7fu8) as usize,
            ;
            assert((limit - low) as usize >> 7 == (limit - low) as usize / 128) by (bit_vector);
            lemma_value_push(self.seen@, byte);
            lemma_scanned_after_continuation(self.seen@, byte);
        }
        if low > limit || acc > (limit - low) >> 7 {
            LenStep::Overflow
        } else {
            assert(acc << 7 == acc * 128) by (bit_vector)
                requires
                    acc * 128 + low <= limit,
            ;
            assert((acc << 7) | low == (acc << 7) + low) by (bit_vector)
                requires
                    low < 128,
            ;
            let value: usize = (acc << 7) | low;
            if byte & CONTINUATION == CONTINUATION {
                assert(byte >= 128) by (bit_vector)
                    requires
                        byte & 0x80u8 == 0x80u8,
                ;
                LenStep::NeedMore(LenDecoder { acc: value, limit, seen: Ghost(all) })
            } else {
                assert(byte < 128) by (bit_vector)
                    requires
                        byte & 0x80u8 != 0x80u8,
                ;
                LenStep::Complete(value)
            }
        }
    }
}

/// Reads one length prefix from the front of `input`, accepting lengths up
/// to `limit`.
///
/// Gives the length and the number of bytes that the prefix occupies.
/// Fails with `LengthOverflow` as soon as the groups read exceed `limit`,
/// and with `Truncated` if `input` ends before a terminator.
pub fn read_len_within(input: &[u8], limit: usize) -> (r: Result<(usize, usize), FrameError>)
    ensures
        r matches Ok((len, used)) ==> parse_len(input@, limit as nat) == Ok::<
            (nat, nat),
            FrameError,
        >((len as nat, used as nat)),
        r matches Err(e) ==> parse_len(input@, limit as nat) == Err::<(nat, nat), FrameError>(e),
        r matches Ok((len, used)) ==> len <= limit && 0 < used <= input.len(),
{
    proof {
        lemma_scanned_shape(input@);
    }
    let mut decoder = LenDecoder::with_limit(limit);
    let mut i: usize = 0;
    while i < input.len()
        invariant
            i <= input.len(),
            decoder@ == input@.take(i as int),
            decoder.limit() == limit,
        decreases input.len() - i,
    {
        proof {
            assert(input@.take(i as int).push(input@[i as int]) =~= input@.take(i + 1));
        }
        match decoder.push(input[i]) {
            LenStep::NeedMore(next) => {
                decoder = next;
                i = i + 1;
            },
            LenStep::Complete(len) => {
                proof {
                    lemma_parse_len_decided(input@, i + 1, limit as nat);
                }
                return Ok((len, i + 1));
            },
            LenStep::Overflow => {
                proof {
                    lemma_parse_len_decided(input@, i + 1, limit as nat);
                }
                return Err(FrameError::LengthOverflow);
            },
        }
    }
    proof {
        use_type_invariant(&decoder);
        assert(input@.take(i as int) =~= input@);
        lemma_scanned_unterminated(input@);
    }
    Err(FrameError::Truncated)
}

/// Reads one length prefix from the front of `input`, accepting every
/// length that fits a `usize`.
pub fn read_len(input: &[u8]) -> (r: Result<(usize, usize), FrameError>)
    ensures
        r matches Ok((len, used)) ==> parse_len(input@, usize::MAX as nat) == Ok::<
            (nat, nat),
            FrameError,
        >((len as nat, used as nat)),
        r matches Err(e) ==> parse_len(input@, usize::MAX as nat) == Err::<(nat, nat), FrameError>(
            e,
        ),
        r matches Ok((len, used)) ==> 0 < used <= input.len(),
{
    read_len_within(input, usize::MAX)
}

} // verus!
