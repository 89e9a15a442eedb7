//! What holds of the format as a whole: reading undoes writing, the
//! encoding is the shortest there is, and damaged input is told apart.
use crate::error::FrameError;
use crate::lemmas::{
    lemma_continuation_groups, lemma_scanned_prefix, lemma_scanned_unterminated,
    lemma_value_monotone, lemma_value_push,
};
use crate::wire::{
    all_continuation, continuation_groups, encoding, frame, group_value, is_canonical, is_prefix,
    parse_frame, parse_len, CONTINUATION,
};
use vstd::arithmetic::power::pow;
use vstd::prelude::*;

verus! {

/// The encoding of every length is a complete prefix without a redundant
/// leading group, and it stands for that length.
pub proof fn theorem_encoding_canonical(n: nat)
    ensures
        is_canonical(encoding(n)),
        group_value(encoding(n)) == n,
{
    let upper = continuation_groups(n / 128);
    let low = (n % 128) as u8;
    lemma_continuation_groups(n / 128);
    lemma_value_push(upper, low);
    assert(upper.push(low).drop_last() =~= upper);
    if n / 128 > 0 {
        assert(upper.push(low)[0] == upper[0]);
    }
}

/// Reading what was written gives the length back: the encoding of any
/// length within the limit, with anything behind it, reads as that length
/// and as exactly the bytes of the encoding.
pub proof fn theorem_len_round_trip(n: nat, rest: Seq<u8>, limit: nat)
    requires
        n <= limit,
    ensures
        parse_len(encoding(n) + rest, limit) == Ok::<(nat, nat), FrameError>(
            (n, encoding(n).len()),
        ),
{
    theorem_encoding_canonical(n);
    lemma_scanned_prefix(encoding(n), rest);
}

/// A run of continuation groups is at least as long as the digits of the
/// number it stands for.
proof fn lemma_groups_shortest(g: Seq<u8>)
    requires
        all_continuation(g),
    ensures
        continuation_groups(group_value(g)).len() <= g.len(),
    decreases g.len(),
{
    if g.len() > 0 {
        let front = g.drop_last();
        lemma_groups_shortest(front);
        assert(group_value(g) / 128 == group_value(front));
    }
}

/// The encoding is minimal: no complete prefix that stands for the same
/// length is shorter.
pub proof fn theorem_encoding_shortest(h: Seq<u8>)
    requires
        is_prefix(h),
    ensures
        encoding(group_value(h)).len() <= h.len(),
{
    let front = h.drop_last();
    lemma_groups_shortest(front);
    assert(group_value(h) / 128 == group_value(front));
}

/// A run of continuation groups whose first digit is not zero is the run
/// of digits of the number it stands for.
proof fn lemma_groups_unique(g: Seq<u8>)
    requires
        all_continuation(g),
        g.len() > 0 ==> g[0] != CONTINUATION,
    ensures
        continuation_groups(group_value(g)) == g,
    decreases g.len(),
{
    if g.len() > 0 {
        let front = g.drop_last();
        let b = g.last();
        if front.len() > 0 {
            assert(front[0] == g[0]);
        }
        lemma_groups_unique(front);
        let m = group_value(g);
        assert(m == group_value(front) * 128 + (b % 128) as nat);
        assert(m > 0) by {
            if front.len() > 0 {
                assert(continuation_groups(0).len() == 0);
            } else {
                assert(g[0] == b);
            }
        }
        assert(m / 128 == group_value(front));
        assert((128 + m % 128) as u8 == b);
        assert(front.push(b) =~= g);
    }
}

/// Each length has one canonical prefix: a complete prefix without a
/// redundant leading group is the encoding of the length it stands for, so
/// decoding it and encoding the result gives the same bytes again.
pub proof fn theorem_canonical_unique(h: Seq<u8>)
    requires
        is_canonical(h),
    ensures
        encoding(group_value(h)) == h,
{
    let front = h.drop_last();
    let b = h.last();
    if front.len() > 0 {
        assert(front[0] == h[0]);
    }
    lemma_groups_unique(front);
    assert(group_value(h) / 128 == group_value(front));
    assert((group_value(h) % 128) as u8 == b);
    assert(front.push(b) =~= h);
}

/// The digits of `m` are as many as it takes to write `m` in base 128.
proof fn lemma_groups_len(m: nat)
    ensures
        m < pow(128, continuation_groups(m).len()),
        m > 0 ==> pow(128, (continuation_groups(m).len() - 1) as nat) <= m,
    decreases m,
{
    reveal(pow);
    if m > 0 {
        lemma_groups_len(m / 128);
        lemma_continuation_groups(m / 128);
    }
}

/// The encoding of `n` has the smallest number of groups, at least one,
/// that can hold `n`: with `k` groups, `n` is below `128^k`, and unless
/// `k` is one, `n` is not below `128^(k-1)`.
pub proof fn theorem_encoding_len(n: nat)
    ensures
        encoding(n).len() >= 1,
        n < pow(128, encoding(n).len()),
        encoding(n).len() > 1 ==> pow(128, (encoding(n).len() - 1) as nat) <= n,
{
    reveal(pow);
    lemma_groups_len(n / 128);
}

/// Reading what was written gives the payload back: the frame of any
/// payload within the limit, with anything behind it, reads as that payload
/// and as exactly the bytes of the frame.
pub proof fn theorem_frame_round_trip(payload: Seq<u8>, rest: Seq<u8>, max_len: nat)
    requires
        payload.len() <= max_len,
    ensures
        parse_frame(frame(payload) + rest, max_len) == Ok::<(Seq<u8>, nat), FrameError>(
            (payload, frame(payload).len()),
        ),
{
    let prefix = encoding(payload.len());
    let s = frame(payload) + rest;
    assert(s =~= prefix + (payload + rest));
    theorem_len_round_trip(payload.len(), payload + rest, max_len);
    assert(s.subrange(prefix.len() as int, (prefix.len() + payload.len()) as int) =~= payload);
}

/// A frame that was cut off inside its payload is truncated: behind a
/// prefix that announces `n` bytes, fewer than `n` bytes never read as a
/// payload.
pub proof fn theorem_short_payload_is_truncated(n: nat, available: Seq<u8>, max_len: nat)
    requires
        n <= max_len,
        available.len() < n,
    ensures
        parse_frame(encoding(n) + available, max_len) == Err::<(Seq<u8>, nat), FrameError>(
            FrameError::Truncated,
        ),
{
    theorem_len_round_trip(n, available, max_len);
}

/// Input that ends inside a prefix is truncated: bytes that all carry the
/// continuation flag, and whose value is still within the limit, read as
/// neither a length nor a frame.
pub proof fn theorem_unterminated_is_truncated(s: Seq<u8>, limit: nat)
    requires
        all_continuation(s),
        group_value(s) <= limit,
    ensures
        parse_len(s, limit) == Err::<(nat, nat), FrameError>(FrameError::Truncated),
        parse_frame(s, limit) == Err::<(Seq<u8>, nat), FrameError>(FrameError::Truncated),
{
    lemma_scanned_unterminated(s);
    if s.len() > 0 {
        assert(s.last() >= CONTINUATION);
    }
}

/// An encoding that was cut off before its last byte is truncated.
pub proof fn theorem_cut_prefix_is_truncated(n: nat, k: int, limit: nat)
    requires
        n <= limit,
        0 <= k < encoding(n).len(),
    ensures
        parse_len(encoding(n).take(k), limit) == Err::<(nat, nat), FrameError>(
            FrameError::Truncated,
        ),
        parse_frame(encoding(n).take(k), limit) == Err::<(Seq<u8>, nat), FrameError>(
            FrameError::Truncated,
        ),
{
    let e = encoding(n);
    let s = e.take(k);
    theorem_encoding_canonical(n);
    assert forall|i: int| 0 <= i < s.len() implies #[trigger] s[i] >= CONTINUATION by {
        assert(e.drop_last()[i] >= CONTINUATION);
    }
    lemma_value_monotone(e, k);
    theorem_unterminated_is_truncated(s, limit);
}

/// A prefix that stands for more than the limit is an overflow, whatever
/// follows it: neither a length nor a payload comes out.
pub proof fn theorem_large_length_is_overflow(h: Seq<u8>, rest: Seq<u8>, limit: nat)
    requires
        is_prefix(h),
        group_value(h) > limit,
    ensures
        parse_len(h + rest, limit) == Err::<(nat, nat), FrameError>(FrameError::LengthOverflow),
        parse_frame(h + rest, limit) == Err::<(Seq<u8>, nat), FrameError>(
            FrameError::LengthOverflow,
        ),
{
    lemma_scanned_prefix(h, rest);
}

} // verus!
