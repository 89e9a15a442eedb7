//! Facts about the wire format that the proofs of the codec rest on.
use crate::error::FrameError;
use crate::wire::{
    all_continuation, continuation_groups, group_value, is_prefix, parse_len, scanned,
    scanned_len, CONTINUATION,
};
use vstd::prelude::*;

verus! {

/// Appending a byte shifts the value by one digit and adds the byte's digit.
pub proof fn lemma_value_push(s: Seq<u8>, b: u8)
    ensures
        group_value(s.push(b)) == group_value(s) * 128 + (b % 128) as nat,
{
    assert(s.push(b).drop_last() =~= s);
}

/// A prefix never stands for more than the whole: digits are only added
/// at the low end.
pub proof fn lemma_value_monotone(s: Seq<u8>, k: int)
    requires
        0 <= k <= s.len(),
    ensures
        group_value(s.take(k)) <= group_value(s),
    decreases s.len(),
{
    if k == s.len() {
        assert(s.take(k) =~= s);
    } else {
        lemma_value_monotone(s.drop_last(), k);
        assert(s.drop_last().take(k) =~= s.take(k));
    }
}

/// Behind `i` continuation bytes the scan goes on as if it started there.
pub proof fn lemma_scanned_len_after_run(s: Seq<u8>, i: int)
    requires
        0 <= i <= s.len(),
        all_continuation(s.take(i)),
    ensures
        scanned_len(s) == i + scanned_len(s.skip(i)),
    decreases i,
{
    if i == 0 {
        assert(s.skip(0) =~= s);
    } else {
        assert(s.take(i)[0] >= CONTINUATION);
        let t = s.skip(1);
        let u = t.take(i - 1);
        assert forall|j: int| 0 <= j < u.len() implies #[trigger] u[j] >= CONTINUATION by {
            assert(s.take(i)[j + 1] >= CONTINUATION);
        }
        lemma_scanned_len_after_run(t, i - 1);
        assert(t.skip(i - 1) =~= s.skip(i));
    }
}

/// The scan stops at the first terminator and not before.
pub proof fn lemma_scanned_shape(s: Seq<u8>)
    ensures
        scanned_len(s) <= s.len(),
        s.len() > 0 ==> scanned_len(s) >= 1,
        forall|i: int| 0 <= i < scanned_len(s) - 1 ==> s[i] >= CONTINUATION,
        scanned_len(s) < s.len() ==> s[scanned_len(s) - 1] < CONTINUATION,
    decreases s.len(),
{
    if s.len() > 0 && s[0] >= CONTINUATION {
        let t = s.skip(1);
        lemma_scanned_shape(t);
        assert forall|i: int| 0 <= i < scanned_len(s) - 1 implies s[i] >= CONTINUATION by {
            if i > 0 {
                assert(t[i - 1] >= CONTINUATION);
            }
        }
    }
}

/// What was scanned is a complete prefix or a run of continuation bytes
/// that reaches the end of the input.
pub proof fn lemma_scanned_cases(s: Seq<u8>)
    ensures
        is_prefix(scanned(s)) || (all_continuation(s) && scanned(s) == s),
{
    lemma_scanned_shape(s);
    let h = scanned(s);
    if h.len() > 0 && h.last() < CONTINUATION {
        assert(all_continuation(h.drop_last()));
    } else {
        assert(h =~= s);
    }
}

/// An input of continuation bytes only is scanned to its end.
pub proof fn lemma_scanned_unterminated(s: Seq<u8>)
    requires
        all_continuation(s),
    ensures
        scanned(s) == s,
{
    assert(s.take(s.len() as int) =~= s);
    lemma_scanned_len_after_run(s, s.len() as int);
    assert(s.skip(s.len() as int).len() == 0);
}

/// An input that starts with a complete prefix is scanned to the end of
/// that prefix, whatever follows.
pub proof fn lemma_scanned_prefix(h: Seq<u8>, rest: Seq<u8>)
    requires
        is_prefix(h),
    ensures
        scanned(h + rest) == h,
{
    let s = h + rest;
    let i = h.len() - 1;
    assert(s.take(i) =~= h.drop_last());
    lemma_scanned_len_after_run(s, i);
    assert(s.skip(i)[0] == h.last());
    assert(s.take(h.len() as int) =~= h);
}

/// Once the first `k` bytes decide the outcome, later bytes do not change
/// it: only a truncated read can still become something else.
pub proof fn lemma_parse_len_decided(s: Seq<u8>, k: int, limit: nat)
    requires
        0 <= k <= s.len(),
        parse_len(s.take(k), limit) != Err::<(nat, nat), FrameError>(FrameError::Truncated),
    ensures
        parse_len(s, limit) == parse_len(s.take(k), limit),
{
    let p = s.take(k);
    let rest = s.skip(k);
    assert(p + rest =~= s);
    lemma_scanned_shape(p);
    lemma_scanned_shape(s);
    lemma_scanned_cases(p);
    if is_prefix(scanned(p)) {
        let h = scanned(p);
        let tail = p.skip(h.len() as int) + rest;
        assert(h + tail =~= s);
        lemma_scanned_prefix(h, tail);
    } else {
        lemma_scanned_len_after_run(s, k);
        let h = scanned(s);
        assert(h.take(k) =~= p);
        lemma_value_monotone(h, k);
        lemma_scanned_cases(s);
    }
}

/// The continuation groups of `n` are continuation bytes, stand for `n`,
/// and start with a digit that is not zero.
pub proof fn lemma_continuation_groups(n: nat)
    ensures
        all_continuation(continuation_groups(n)),
        group_value(continuation_groups(n)) == n,
        n > 0 ==> continuation_groups(n).len() > 0 && continuation_groups(n)[0] != CONTINUATION,
    decreases n,
{
    if n > 0 {
        let upper = continuation_groups(n / 128);
        let low = (128 + n % 128) as u8;
        lemma_continuation_groups(n / 128);
        lemma_value_push(upper, low);
        assert(all_continuation(upper.push(low)));
        if n / 128 > 0 {
            assert(upper.push(low)[0] == upper[0]);
        }
    }
}

/// Behind a run of continuation bytes, one more byte is scanned too: the
/// scan of the run with the byte appended is all of it, and it is a complete
/// prefix exactly if the byte is a terminator.
pub proof fn lemma_scanned_after_continuation(run: Seq<u8>, b: u8)
    requires
        all_continuation(run),
    ensures
        scanned(run.push(b)) == run.push(b),
        is_prefix(run.push(b)) <==> b < CONTINUATION,
{
    let s = run.push(b);
    assert(s.drop_last() =~= run);
    if b < CONTINUATION {
        assert(s =~= s + Seq::<u8>::empty());
        lemma_scanned_prefix(s, Seq::empty());
    } else {
        assert(all_continuation(s));
        lemma_scanned_unterminated(s);
    }
}

} // verus!
