//! A keyed shuffle of sample positions and its exact inverse.
//!
//! The shuffle is Fisher-Yates, defined by its swap trace: step `k` swaps
//! position `n - 1 - k` with a drawn position at most `n - 1 - k`. Scrambling
//! replays the steps in order; unscrambling replays the same steps backwards.
use crate::keyed::{chacha_swap_draws, swap_draws};
use vstd::prelude::*;

verus! {

/// A swap trace for `n` positions: one draw per step, step `k` drawing at most `n - 1 - k`.
pub open spec fn is_swap_trace(t: Seq<u64>, n: nat) -> bool {
    &&& t.len() == if n == 0 { 0 } else { n - 1 }
    &&& forall|k: int| 0 <= k < t.len() ==> #[trigger] t[k] <= n - 1 - k
}

/// `s` with the samples at `a` and `b` exchanged.
pub open spec fn swapped(s: Seq<u8>, a: int, b: int) -> Seq<u8> {
    s.update(a, s[b]).update(b, s[a])
}

/// Step `k` of a trace applied to `s`.
pub open spec fn step(s: Seq<u8>, t: Seq<u64>, k: int) -> Seq<u8> {
    swapped(s, s.len() - 1 - k, t[k] as int)
}

/// The first `k` steps of a trace applied in order.
pub open spec fn shuffled(s: Seq<u8>, t: Seq<u64>, k: nat) -> Seq<u8>
    decreases k,
{
    if k == 0 {
        s
    } else {
        step(shuffled(s, t, (k - 1) as nat), t, k - 1)
    }
}

/// The first `k` steps of a trace applied backwards, step `k - 1` first.
pub open spec fn unshuffled(s: Seq<u8>, t: Seq<u64>, k: nat) -> Seq<u8>
    decreases k,
{
    if k == 0 {
        s
    } else {
        unshuffled(step(s, t, k - 1), t, (k - 1) as nat)
    }
}

/// The swap trace that `key` gives for `n` positions.
pub open spec fn trace_of(key: u64, n: nat) -> Seq<u64> {
    chacha_swap_draws(key, n)
}

proof fn lemma_step_len(s: Seq<u8>, t: Seq<u64>, k: int)
    requires
        is_swap_trace(t, s.len()),
        0 <= k < t.len(),
    ensures
        step(s, t, k).len() == s.len(),
        step(step(s, t, k), t, k) == s,
{
    let a = s.len() - 1 - k;
    let b = t[k] as int;
    assert(0 <= b <= a < s.len());
    assert(step(step(s, t, k), t, k) =~= s);
}

proof fn lemma_shuffled_len(s: Seq<u8>, t: Seq<u64>, k: nat)
    requires
        is_swap_trace(t, s.len()),
        k <= t.len(),
    ensures
        shuffled(s, t, k).len() == s.len(),
    decreases k,
{
    if k > 0 {
        lemma_shuffled_len(s, t, (k - 1) as nat);
        lemma_step_len(shuffled(s, t, (k - 1) as nat), t, k - 1);
    }
}

/// Replaying a swap trace backwards undoes it: unscrambling a scrambled
/// buffer with the same trace gives the buffer back.
pub proof fn lemma_unshuffle_inverts(s: Seq<u8>, t: Seq<u64>)
    requires
        is_swap_trace(t, s.len()),
    ensures
        unshuffled(shuffled(s, t, t.len()), t, t.len()) == s,
{
    lemma_unshuffle_prefix(s, t, t.len());
}

proof fn lemma_unshuffle_prefix(s: Seq<u8>, t: Seq<u64>, k: nat)
    requires
        is_swap_trace(t, s.len()),
        k <= t.len(),
    ensures
        unshuffled(shuffled(s, t, k), t, k) == s,
    decreases k,
{
    if k > 0 {
        let prev = shuffled(s, t, (k - 1) as nat);
        lemma_shuffled_len(s, t, (k - 1) as nat);
        lemma_step_len(prev, t, k - 1);
        lemma_unshuffle_prefix(s, t, (k - 1) as nat);
    }
}

/// Scrambling and then unscrambling with the same key gives the buffer back.
pub proof fn lemma_unscramble_inverts(s: Seq<u8>, key: u64)
    requires
        is_swap_trace(trace_of(key, s.len()), s.len()),
    ensures
        unshuffled(
            shuffled(s, trace_of(key, s.len()), trace_of(key, s.len()).len()),
            trace_of(key, s.len()),
            trace_of(key, s.len()).len(),
        ) == s,
{
    lemma_unshuffle_inverts(s, trace_of(key, s.len()));
}

/// Exchanges two samples in place.
fn swap_samples(buf: &mut Vec<u8>, a: usize, b: usize)
    requires
        a < old(buf)@.len(),
        b < old(buf)@.len(),
    ensures
        final(buf)@ == swapped(old(buf)@, a as int, b as int),
{
    let x = buf[a];
    let y = buf[b];
    buf.set(a, y);
    buf.set(b, x);
}

/// Shuffles the samples of `buf` by the swap trace that `key` gives.
pub fn scramble(buf: &mut Vec<u8>, key: u64)
    ensures
        final(buf)@.len() == old(buf)@.len(),
        is_swap_trace(trace_of(key, old(buf)@.len()), old(buf)@.len()),
        final(buf)@ == shuffled(
            old(buf)@,
            trace_of(key, old(buf)@.len()),
            trace_of(key, old(buf)@.len()).len(),
        ),
{
    let n = buf.len();
    let t = swap_draws(key, n as u64);
    let ghost s = buf@;
    let steps = t.len();
    let mut k: usize = 0;
    while k < steps
        invariant
            n == s.len(),
            steps == t@.len(),
            t@ == trace_of(key, n as nat),
            is_swap_trace(t@, n as nat),
            k <= steps,
            buf@ == shuffled(s, t@, k as nat),
        decreases steps - k,
    {
        proof {
            lemma_shuffled_len(s, t@, k as nat);
        }
        let j = t[k];
        assert(j <= n - 1 - k);
        swap_samples(buf, n - 1 - k, j as usize);
        k += 1;
    }
    proof {
        lemma_shuffled_len(s, t@, k as nat);
    }
}

/// Undoes `scramble` with the same key: replays its swap trace backwards.
pub fn unscramble(buf: &mut Vec<u8>, key: u64)
    ensures
        final(buf)@.len() == old(buf)@.len(),
        is_swap_trace(trace_of(key, old(buf)@.len()), old(buf)@.len()),
        final(buf)@ == unshuffled(
            old(buf)@,
            trace_of(key, old(buf)@.len()),
            trace_of(key, old(buf)@.len()).len(),
        ),
{
    let n = buf.len();
    let t = swap_draws(key, n as u64);
    let ghost s = buf@;
    let mut k: usize = t.len();
    while k > 0
        invariant
            n == s.len(),
            t@ == trace_of(key, n as nat),
            is_swap_trace(t@, n as nat),
            k <= t@.len(),
            buf@.len() == n,
            unshuffled(buf@, t@, k as nat) == unshuffled(s, t@, t@.len()),
        decreases k,
    {
        let j = t[k - 1];
        assert(j <= n - 1 - (k - 1));
        swap_samples(buf, n - k, j as usize);
        k -= 1;
    }
}

} // verus!
