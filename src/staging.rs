use vstd::prelude::*;

verus! {

/// The `n` new samples of a step: `len` samples of `src` from `start`, then
/// `zero` up to `n`.
pub open spec fn padded<T>(src: Seq<T>, start: int, len: int, n: int, zero: T) -> Seq<T> {
    Seq::new(n as nat, |i: int| if i < len { src[start + i] } else { zero })
}

/// Stages the next analysis block: its left half is the previous step's new
/// samples (`history`), its right half the new samples of this step, taken
/// from `src` and zero-padded to a full half; `history` then holds the new
/// samples for the next step.
pub fn slide_in<T: Copy>(
    block: &mut Vec<T>,
    history: &mut Vec<T>,
    src: &[T],
    start: usize,
    len: usize,
    zero: T,
)
    requires
        old(block)@.len() == 2 * old(history)@.len(),
        len <= old(history)@.len(),
        start + len <= src@.len(),
    ensures
        ({
            let fresh = padded(src@, start as int, len as int, old(history)@.len() as int, zero);
            &&& final(block)@ == old(history)@ + fresh
            &&& final(history)@ == fresh
        }),
{
    let n = history.len();
    let block_len = block.len();
    let src_len = src.len();
    let ghost fresh = padded(src@, start as int, len as int, n as int, zero);
    let ghost prev = history@;
    let mut i: usize = 0;
    while i < n
        invariant
            n == history@.len(),
            n == prev.len(),
            block@.len() == 2 * n,
            block_len == block@.len(),
            src_len == src@.len(),
            len <= n,
            start + len <= src@.len(),
            fresh == padded(src@, start as int, len as int, n as int, zero),
            i <= n,
            forall|j: int| 0 <= j < i ==> block@[j] == prev[j] && block@[n + j] == fresh[j]
                && history@[j] == fresh[j],
            forall|j: int| i <= j < n ==> history@[j] == prev[j],
        decreases n - i,
    {
        let sample = if i < len {
            src[start + i]
        } else {
            zero
        };
        block[i] = history[i];
        block[n + i] = sample;
        history[i] = sample;
        i += 1;
    }
    assert(block@ =~= prev + fresh);
    assert(history@ =~= fresh);
}

/// Writes the first `len` samples of `src` into `dst` from position `at`,
/// leaving the rest of `dst` as it was.
pub fn emit_prefix<T: Copy>(dst: &mut [T], at: usize, src: &Vec<T>, len: usize)
    requires
        len <= src@.len(),
        at + len <= old(dst)@.len(),
    ensures
        final(dst)@.len() == old(dst)@.len(),
        forall|j: int|
            0 <= j < old(dst)@.len() ==> #[trigger] final(dst)@[j] == if at <= j < at + len {
                src@[j - at]
            } else {
                old(dst)@[j]
            },
{
    let ghost before = dst@;
    let dst_len = dst.len();
    let mut i: usize = 0;
    while i < len
        invariant
            len <= src@.len(),
            at + len <= before.len(),
            dst@.len() == before.len(),
            dst_len == before.len(),
            i <= len,
            forall|j: int|
                0 <= j < before.len() ==> #[trigger] dst@[j] == if at <= j < at + i {
                    src@[j - at]
                } else {
                    before[j]
                },
        decreases len - i,
    {
        dst[at + i] = src[i];
        i += 1;
    }
}

/// Keeps the right half of a synthesized block for the next overlap-add.
pub fn keep_right_half<T: Copy>(tail: &mut Vec<T>, block: &Vec<T>)
    requires
        block@.len() == 2 * old(tail)@.len(),
    ensures
        final(tail)@ == block@.subrange(old(tail)@.len() as int, block@.len() as int),
{
    let n = tail.len();
    let block_len = block.len();
    let mut i: usize = 0;
    while i < n
        invariant
            n == tail@.len(),
            block@.len() == 2 * n,
            block_len == 2 * n,
            i <= n,
            forall|j: int| 0 <= j < i ==> tail@[j] == block@[n + j],
        decreases n - i,
    {
        tail[i] = block[n + i];
        i += 1;
    }
    assert(tail@ =~= block@.subrange(n as int, 2 * n as int));
}

} // verus!
