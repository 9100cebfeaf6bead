use vstd::prelude::*;

use vstd::arithmetic::div_mod::{
    lemma_basic_div,
    lemma_div_plus_one,
    lemma_mod_add_multiples_vanish,
    lemma_small_mod,
};

use crate::schedule::{
    cursors_ok,
    input_end,
    min_int,
    output_end,
    plan_of,
    step_for,
    steps_from,
    Stage,
    Step,
};
use crate::staging::padded;

verus! {

/// Consecutive steps pick up the input and the output where the step
/// before left them.
#[verifier::opaque]
pub open spec fn chained(s: Seq<Step>) -> bool {
    forall|j: int| 0 <= j < s.len() - 1 ==> #[trigger] linked(s, j)
}

/// Step `j + 1` picks up the input and the output where step `j` left them.
pub open spec fn linked(s: Seq<Step>, j: int) -> bool {
    &&& input_end(s[j]) == s[j + 1].input_start
    &&& output_end(s[j]) == s[j + 1].output_start
}

/// What a step of each kind reads: the first step reads from the start, an
/// interior step a whole block, a tail step the last part of the input,
/// shorter than a block, and a flush step nothing.
pub open spec fn classified(s: Step, n: usize, total: usize) -> bool {
    match s.stage {
        Stage::First => s.input_start == 0 && s.input_len == min_int(n as int, total as int),
        Stage::Interior => s.input_len == n,
        Stage::Tail => 0 < s.input_len < n && input_end(s) == total,
        Stage::Flush => s.input_len == 0 && s.input_start == total,
    }
}

/// Every step after the first emits between one sample and one block,
/// reads at most one block and stays inside the signal.
#[verifier::opaque]
pub open spec fn emitting_steps(s: Seq<Step>, n: usize, total: usize) -> bool {
    forall|j: int|
        0 <= j < s.len() ==> (#[trigger] s[j]).stage != Stage::First && 0 < s[j].output_len <= n
            && s[j].input_len <= n && input_end(s[j]) <= total && output_end(s[j]) <= total
}

/// Every step but the last emits a whole block and is no flush.
#[verifier::opaque]
pub open spec fn whole_blocks_until_last(s: Seq<Step>, n: usize) -> bool {
    forall|j: int|
        0 <= j < s.len() - 1 ==> (#[trigger] s[j]).output_len == n && s[j].stage != Stage::Flush
}

/// Unfolds one step of a pass that still has output to produce.
proof fn lemma_unfold(n: usize, total: usize, read: usize, write: usize)
    requires
        cursors_ok(n, total, read, write),
        write < total,
    ensures
        ({
            let s0 = step_for(n, total, read, write);
            let rest = steps_from(n, total, input_end(s0) as usize, output_end(s0) as usize);
            &&& steps_from(n, total, read, write) == seq![s0] + rest
            &&& cursors_ok(n, total, input_end(s0) as usize, output_end(s0) as usize)
            &&& 0 < input_end(s0)
        }),
{
    reveal(steps_from);
}

/// A pass whose output is complete has no step left.
proof fn lemma_done(n: usize, total: usize, read: usize, write: usize)
    requires
        write >= total,
    ensures
        steps_from(n, total, read, write) == Seq::<Step>::empty(),
{
    reveal(steps_from);
}

/// What one step taken after the first one does.
proof fn lemma_steady_step(n: usize, total: usize, read: usize, write: usize)
    requires
        cursors_ok(n, total, read, write),
        0 < read,
        write < total,
    ensures
        ({
            let s0 = step_for(n, total, read, write);
            &&& s0.input_start == read && s0.output_start == write
            &&& s0.stage != Stage::First && 0 < s0.output_len <= n && s0.input_len <= n
            &&& input_end(s0) <= total && output_end(s0) <= total
            &&& output_end(s0) < total ==> s0.output_len == n && s0.stage != Stage::Flush
            &&& output_end(s0) == total ==> s0.stage == Stage::Flush && input_end(s0) == total
            &&& classified(s0, n, total)
        }),
{
}

/// The steps after the first one continue each other, and the last one
/// flushes and ends both the input and the output at the signal's end.
proof fn lemma_steady_chain(n: usize, total: usize, read: usize, write: usize)
    requires
        cursors_ok(n, total, read, write),
        0 < read,
        write < total,
    ensures
        ({
            let s = steps_from(n, total, read, write);
            &&& s.len() > 0
            &&& s[0] == step_for(n, total, read, write)
            &&& input_end(s.last()) == total && output_end(s.last()) == total
            &&& s.last().stage == Stage::Flush
        }),
    decreases 2 * total - read - write,
{
    lemma_unfold(n, total, read, write);
    lemma_steady_step(n, total, read, write);
    let s = steps_from(n, total, read, write);
    let s0 = step_for(n, total, read, write);
    let r2 = input_end(s0) as usize;
    let w2 = output_end(s0) as usize;
    let rest = steps_from(n, total, r2, w2);
    reveal(chained);
    if w2 == total {
        lemma_done(n, total, r2, w2);
        assert(rest.len() == 0);
        assert(s.len() == 1);
    } else {
        lemma_steady_chain(n, total, r2, w2);
        lemma_steady_step(n, total, r2, w2);
        assert(s.last() == rest.last());
    }
}

/// Consecutive steps after the first one continue each other.
proof fn lemma_steady_links(n: usize, total: usize, read: usize, write: usize)
    requires
        cursors_ok(n, total, read, write),
        0 < read,
        write < total,
    ensures
        chained(steps_from(n, total, read, write)),
    decreases 2 * total - read - write,
{
    lemma_unfold(n, total, read, write);
    let s = steps_from(n, total, read, write);
    let s0 = step_for(n, total, read, write);
    let r2 = input_end(s0) as usize;
    let w2 = output_end(s0) as usize;
    let rest = steps_from(n, total, r2, w2);
    reveal(chained);
    if w2 == total {
        lemma_done(n, total, r2, w2);
        assert(s.len() == 1);
    } else {
        lemma_steady_step(n, total, read, write);
        lemma_steady_links(n, total, r2, w2);
        lemma_steady_chain(n, total, r2, w2);
        assert(rest[0].input_start == r2 && rest[0].output_start == w2);
        assert forall|j: int| 0 <= j < s.len() - 1 implies #[trigger] linked(s, j) by {
            assert(s[j + 1] == rest[j]);
            if j > 0 {
                assert(s[j] == rest[j - 1]);
                assert(linked(rest, j - 1));
            } else {
                assert(s[j] == s0);
            }
        }
    }
}

/// Every step after the first one emits output, and all but the last one a
/// whole block.
proof fn lemma_steady_blocks(n: usize, total: usize, read: usize, write: usize)
    requires
        cursors_ok(n, total, read, write),
        0 < read,
        write < total,
    ensures
        ({
            let s = steps_from(n, total, read, write);
            &&& emitting_steps(s, n, total)
            &&& whole_blocks_until_last(s, n)
            &&& forall|j: int| 0 <= j < s.len() ==> classified(#[trigger] s[j], n, total)
        }),
    decreases 2 * total - read - write,
{
    lemma_unfold(n, total, read, write);
    lemma_steady_step(n, total, read, write);
    let s = steps_from(n, total, read, write);
    let s0 = step_for(n, total, read, write);
    let r2 = input_end(s0) as usize;
    let w2 = output_end(s0) as usize;
    let rest = steps_from(n, total, r2, w2);
    reveal(emitting_steps);
    reveal(whole_blocks_until_last);
    if w2 == total {
        lemma_done(n, total, r2, w2);
        assert(rest.len() == 0);
        assert(s.len() == 1);
    } else {
        lemma_steady_blocks(n, total, r2, w2);
        assert forall|j: int| 0 < j < s.len() implies #[trigger] s[j] == rest[j - 1] by {}
    }
}

/// How many steps remain, and where the tail step falls, once the first
/// step is behind: with `m` input samples left, `ceil(m / n) + 1` steps
/// remain, and a tail step comes, at index `m / n`, exactly when `m` is not a
/// multiple of `n`.
proof fn lemma_steady_count(n: usize, total: usize, read: usize, write: usize)
    requires
        cursors_ok(n, total, read, write),
        0 < read,
        write < total,
    ensures
        ({
            let s = steps_from(n, total, read, write);
            let m = total - read;
            &&& s.len() == (m + n - 1) / n as int + 1
            &&& forall|j: int|
                0 <= j < s.len() ==> ((#[trigger] s[j]).stage == Stage::Tail <==> (m % n as int
                    != 0 && j == m / n as int))
        }),
    decreases 2 * total - read - write,
{
    lemma_unfold(n, total, read, write);
    lemma_steady_step(n, total, read, write);
    let s = steps_from(n, total, read, write);
    let s0 = step_for(n, total, read, write);
    let r2 = input_end(s0) as usize;
    let w2 = output_end(s0) as usize;
    let rest = steps_from(n, total, r2, w2);
    let m = total - read;
    if w2 == total {
        lemma_done(n, total, r2, w2);
        assert(s.len() == 1);
        assert(read == total);
        lemma_basic_div(n - 1, n as int);
        assert(0int % n as int == 0);
    } else if read + n <= total {
        lemma_steady_count(n, total, r2, w2);
        assert(r2 == read + n);
        lemma_div_plus_one(m - 1, n as int);
        lemma_div_plus_one(m - n, n as int);
        lemma_mod_add_multiples_vanish(m - n, n as int);
        assert((m - n) / n as int >= 0);
        assert forall|j: int| 0 < j < s.len() implies #[trigger] s[j] == rest[j - 1] by {}
    } else {
        assert(r2 == total);
        lemma_steady_count(n, total, r2, w2);
        lemma_basic_div(n - 1, n as int);
        lemma_div_plus_one(m - 1, n as int);
        lemma_basic_div(m - 1, n as int);
        lemma_basic_div(m, n as int);
        lemma_small_mod(m as nat, n as nat);
        assert(0int % n as int == 0);
        assert forall|j: int| 0 < j < s.len() implies #[trigger] s[j] == rest[j - 1] by {}
    }
}

/// The first step of a plan reads the first block, or the whole signal if
/// it is shorter, and emits nothing; the rest of the plan runs from there.
proof fn lemma_first_step(n: usize, total: usize)
    requires
        0 < n,
        0 < total,
    ensures
        ({
            let p = plan_of(n, total);
            let r = min_int(n as int, total as int) as usize;
            &&& p == seq![step_for(n, total, 0, 0)] + steps_from(n, total, r, 0)
            &&& cursors_ok(n, total, r, 0)
            &&& 0 < r
            &&& p[0] == Step {
                stage: Stage::First,
                input_start: 0,
                input_len: r,
                output_start: 0,
                output_len: 0,
            }
        }),
{
    lemma_unfold(n, total, 0, 0);
}

/// A pass writes the whole output once, in order, and never past its end:
/// the first step reads the first block and emits nothing; each later step
/// starts reading and writing where the one before stopped, emits between
/// one sample and one block, a whole block unless it is the last; the last
/// step flushes and ends both the input and the output at the signal's end.
pub proof fn lemma_plan_covers_signal(n: usize, total: usize)
    requires
        0 < n,
        0 < total,
    ensures
        ({
            let p = plan_of(n, total);
            &&& p.len() >= 2
            &&& p[0].stage == Stage::First && p[0].input_start == 0 && p[0].output_start == 0
                && p[0].output_len == 0
            &&& chained(p)
            &&& input_end(p.last()) == total && output_end(p.last()) == total
            &&& p.last().stage == Stage::Flush
            &&& forall|k: int|
                0 < k < p.len() ==> (#[trigger] p[k]).stage != Stage::First && 0
                    < p[k].output_len <= n && output_end(p[k]) <= total && input_end(p[k])
                    <= total
            &&& forall|k: int| 0 < k < p.len() - 1 ==> (#[trigger] p[k]).output_len == n
            &&& forall|k: int| 0 <= k < p.len() ==> classified(#[trigger] p[k], n, total)
        }),
{
    lemma_first_step(n, total);
    let p = plan_of(n, total);
    let r = min_int(n as int, total as int) as usize;
    let rest = steps_from(n, total, r, 0);
    lemma_steady_chain(n, total, r, 0);
    lemma_steady_links(n, total, r, 0);
    lemma_steady_blocks(n, total, r, 0);
    reveal(chained);
    reveal(emitting_steps);
    reveal(whole_blocks_until_last);
    assert forall|k: int| 0 < k < p.len() implies #[trigger] p[k] == rest[k - 1] by {}
    assert(p.last() == rest.last());
    assert forall|k: int| 0 <= k < p.len() - 1 implies #[trigger] linked(p, k) by {
        if k > 0 {
            assert(linked(rest, k - 1));
        }
    }
}

/// A pass over `total` samples takes `ceil(total / n) + 1` steps.
pub proof fn lemma_plan_length(n: usize, total: usize)
    requires
        0 < n,
        0 < total,
    ensures
        plan_of(n, total).len() == (total + n - 1) / n as int + 1,
{
    lemma_first_step(n, total);
    let r = min_int(n as int, total as int) as usize;
    lemma_steady_count(n, total, r, 0);
    lemma_div_plus_one(total - 1 - n, n as int);
    if total <= n {
        lemma_basic_div(total - r + n - 1, n as int);
        lemma_div_plus_one(total - 1, n as int);
        lemma_basic_div(total - 1, n as int);
    } else {
        lemma_div_plus_one(total - 1, n as int);
    }
}

/// Which steps of a plan are tail steps: exactly the step at index
/// `total / n`, when the signal is longer than one block and not a whole
/// number of blocks.
proof fn lemma_plan_tail(n: usize, total: usize)
    requires
        0 < n,
        0 < total,
    ensures
        ({
            let p = plan_of(n, total);
            forall|k: int|
                0 <= k < p.len() ==> ((#[trigger] p[k]).stage == Stage::Tail <==> (n < total
                    && total as int % n as int != 0 && k == total as int / n as int))
        }),
{
    lemma_first_step(n, total);
    let p = plan_of(n, total);
    let r = min_int(n as int, total as int) as usize;
    let rest = steps_from(n, total, r, 0);
    lemma_steady_count(n, total, r, 0);
    assert forall|k: int| 0 < k < p.len() implies #[trigger] p[k] == rest[k - 1] by {}
    if total <= n {
        assert(0int % n as int == 0);
    } else {
        lemma_div_plus_one(total - n, n as int);
        lemma_mod_add_multiples_vanish(total - n, n as int);
        assert((total - n) / n as int >= 0);
    }
}

/// A signal that is a whole number of blocks is processed with no tail
/// step: only first, interior and flush steps.
pub proof fn lemma_exact_multiple_has_no_tail(n: usize, total: usize)
    requires
        0 < n,
        0 < total,
        total % n == 0,
    ensures
        forall|k: int|
            0 <= k < plan_of(n, total).len() ==> (#[trigger] plan_of(n, total)[k]).stage
                != Stage::Tail,
{
    lemma_plan_tail(n, total);
}

/// A signal longer than one block that is not a whole number of blocks is
/// processed with exactly one tail step, at index `total / n`, which reads
/// the rest of the input, less than a block, zero-padded.
pub proof fn lemma_remainder_takes_one_tail(n: usize, total: usize)
    requires
        0 < n,
        n < total,
        total % n != 0,
    ensures
        ({
            let p = plan_of(n, total);
            let q = total as int / n as int;
            &&& 0 < q < p.len()
            &&& p[q].stage == Stage::Tail
            &&& 0 < p[q].input_len < n && input_end(p[q]) == total
            &&& forall|k: int| 0 <= k < p.len() && k != q ==> (#[trigger] p[k]).stage != Stage::Tail
        }),
{
    lemma_plan_tail(n, total);
    lemma_plan_length(n, total);
    lemma_plan_covers_signal(n, total);
    let p = plan_of(n, total);
    let q: int = total as int / n as int;
    lemma_div_plus_one(total - n, n as int);
    assert((total - n) / n as int >= 0);
    vstd::arithmetic::div_mod::lemma_div_is_ordered(total as int, (total + n - 1) as int, n as int);
    assert(classified(p[q], n, total));
}

/// Step `k` reads the `k`-th block of the signal: it starts at `k * n` and
/// reads what the signal holds of that block, or it reads nothing and that
/// block lies past the signal's end.
pub open spec fn reads_block(s: Step, k: int, n: int, total: int) -> bool {
    ||| s.input_start == k * n && s.input_len == min_int(n, total - k * n)
    ||| s.input_len == 0 && k * n >= total
}

/// The new half of the `k`-th block of the signal `x`: samples `k * n` up
/// to `(k + 1) * n`, with `zero` past the signal's end.
pub open spec fn signal_block<T>(x: Seq<T>, k: int, n: int, zero: T) -> Seq<T> {
    Seq::new(n as nat, |i: int| if k * n + i < x.len() { x[k * n + i] } else { zero })
}

/// Once the first step is behind, step `j` reads block `k0 + j` of the
/// signal, where `k0` is the block at which the read cursor stands.
proof fn lemma_steady_positions(n: usize, total: usize, read: usize, write: usize, k0: int)
    requires
        cursors_ok(n, total, read, write),
        0 < read,
        write < total,
        k0 >= 1,
        read == k0 * n || (read == total && k0 * n >= total),
    ensures
        ({
            let s = steps_from(n, total, read, write);
            forall|j: int| 0 <= j < s.len() ==> reads_block(#[trigger] s[j], k0 + j, n as int, total as int)
        }),
    decreases 2 * total - read - write,
{
    lemma_unfold(n, total, read, write);
    lemma_steady_step(n, total, read, write);
    let s = steps_from(n, total, read, write);
    let s0 = step_for(n, total, read, write);
    let r2 = input_end(s0) as usize;
    let w2 = output_end(s0) as usize;
    let rest = steps_from(n, total, r2, w2);
    assert((k0 + 1) * n == k0 * n + n) by (nonlinear_arith);
    if w2 == total {
        lemma_done(n, total, r2, w2);
        assert(s.len() == 1);
    } else {
        lemma_steady_positions(n, total, r2, w2, k0 + 1);
        assert forall|j: int| 0 < j < s.len() implies #[trigger] s[j] == rest[j - 1] by {}
        assert forall|j: int| 0 <= j < s.len() implies reads_block(
            #[trigger] s[j],
            k0 + j,
            n as int,
            total as int,
        ) by {
            if j > 0 {
                assert(reads_block(rest[j - 1], k0 + 1 + (j - 1), n as int, total as int));
            }
        }
    }
}

/// A pass feeds the signal to the blocks in order: the new half of the
/// block built at step `k` is the `k`-th block of the signal, zero-padded
/// past its end, so no sample is skipped, repeated or read out of place.
pub proof fn lemma_plan_reads_signal_in_order<T>(n: usize, total: usize, x: Seq<T>, zero: T)
    requires
        0 < n,
        0 < total,
        x.len() == total,
    ensures
        ({
            let p = plan_of(n, total);
            forall|k: int|
                0 <= k < p.len() ==> padded(
                    x,
                    (#[trigger] p[k]).input_start as int,
                    p[k].input_len as int,
                    n as int,
                    zero,
                ) == signal_block(x, k, n as int, zero)
        }),
{
    lemma_first_step(n, total);
    let p = plan_of(n, total);
    let r = min_int(n as int, total as int) as usize;
    let rest = steps_from(n, total, r, 0);
    assert(1 * n == n);
    lemma_steady_positions(n, total, r, 0, 1);
    assert forall|k: int| 0 <= k < p.len() implies padded(
        x,
        (#[trigger] p[k]).input_start as int,
        p[k].input_len as int,
        n as int,
        zero,
    ) == signal_block(x, k, n as int, zero) by {
        if k > 0 {
            assert(p[k] == rest[k - 1]);
            assert(reads_block(rest[k - 1], 1 + (k - 1), n as int, total as int));
        } else {
            assert(0 * n == 0);
        }
        assert(reads_block(p[k], k, n as int, total as int));
        assert(padded(x, p[k].input_start as int, p[k].input_len as int, n as int, zero)
            =~= signal_block(x, k, n as int, zero));
    }
}

} // verus!
