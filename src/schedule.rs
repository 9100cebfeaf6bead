use vstd::prelude::*;

use crate::error::{CodecError, Setting};
use crate::geometry::BlockGeometry;

verus! {

/// The four kinds of processing step, in the priority order in which a
/// step is classified.
#[derive(Debug, Clone, Copy, PartialEq, Eq, Structural)]
pub enum Stage {
    /// Nothing read yet: read the first block to set up history, emit nothing.
    First,
    /// A whole block of new input remains: read it and emit a block.
    Interior,
    /// Some input remains, less than a block: read it zero-padded and emit.
    Tail,
    /// All input read: feed zeros and emit what is left of the output.
    Flush,
}

/// One processing step: which input samples feed the block (the rest of the
/// block's new half is zero) and which output samples it produces.
#[derive(Debug, Clone, Copy, PartialEq, Eq, Structural)]
pub struct Step {
    pub stage: Stage,
    pub input_start: usize,
    pub input_len: usize,
    pub output_start: usize,
    pub output_len: usize,
}

/// The smaller of two integers.
pub open spec fn min_int(a: int, b: int) -> int {
    if a <= b {
        a
    } else {
        b
    }
}

/// The kind of step taken from cursors `read` and `write`.
pub open spec fn stage_of(n: usize, total: usize, read: usize) -> Stage {
    if read == 0 {
        Stage::First
    } else if read + n <= total {
        Stage::Interior
    } else if read < total {
        Stage::Tail
    } else {
        Stage::Flush
    }
}

/// The step taken from cursors `read` and `write`: it reads what is left of
/// the input, at most one block, and stores what is left of the output, at
/// most one block, except for the first step, which stores nothing.
pub open spec fn step_for(n: usize, total: usize, read: usize, write: usize) -> Step {
    Step {
        stage: stage_of(n, total, read),
        input_start: read,
        input_len: min_int(n as int, total - read) as usize,
        output_start: write,
        output_len: if read == 0 {
            0
        } else {
            min_int(n as int, total - write) as usize
        },
    }
}

pub open spec fn input_end(s: Step) -> int {
    s.input_start + s.input_len
}

pub open spec fn output_end(s: Step) -> int {
    s.output_start + s.output_len
}

/// The steps that remain from cursors `read` and `write` until the whole
/// output has been produced.
#[verifier::opaque]
pub open spec fn steps_from(n: usize, total: usize, read: usize, write: usize) -> Seq<Step>
    decreases 2 * total - read - write,
{
    if n == 0 || read > total || write >= total {
        Seq::empty()
    } else {
        let s = step_for(n, total, read, write);
        seq![s] + steps_from(n, total, input_end(s) as usize, output_end(s) as usize)
    }
}

/// Every step of processing a signal of `total` samples with `n` new
/// samples per block, in order.
pub open spec fn plan_of(n: usize, total: usize) -> Seq<Step> {
    steps_from(n, total, 0, 0)
}

/// Where the cursors may stand during a pass: after the first step the
/// read cursor runs one block ahead of the write cursor until the input is
/// used up, and then less than one block of output is left.
pub open spec fn cursors_ok(n: usize, total: usize, read: usize, write: usize) -> bool {
    &&& 0 < n
    &&& 0 < total
    &&& read <= total && write <= total
    &&& read == 0 ==> write == 0
    &&& 0 < read < total ==> read == write + n
    &&& read == total ==> total - write <= n
}

/// The cursors of one channel's pass over its signal.
pub struct Schedule {
    n: usize,
    total: usize,
    read: usize,
    write: usize,
}

impl Schedule {
    pub closed spec fn n_spec(self) -> usize {
        self.n
    }

    pub closed spec fn total_spec(self) -> usize {
        self.total
    }

    pub closed spec fn read_spec(self) -> usize {
        self.read
    }

    pub closed spec fn write_spec(self) -> usize {
        self.write
    }

    /// The cursors stand where some prefix of the plan leaves them.
    pub open spec fn wf(self) -> bool {
        cursors_ok(self.n_spec(), self.total_spec(), self.read_spec(), self.write_spec())
    }

    /// The steps that this schedule has still to take.
    pub open spec fn remaining(self) -> Seq<Step> {
        steps_from(self.n_spec(), self.total_spec(), self.read_spec(), self.write_spec())
    }

    /// Starts a pass over a signal of `total` samples; an empty signal is
    /// refused.
    pub fn new(geometry: &BlockGeometry, total: usize) -> (r: Result<Schedule, CodecError>)
        requires
            geometry.wf(),
        ensures
            total == 0 ==> r == Err::<Schedule, CodecError>(
                CodecError::InvalidConfiguration { setting: Setting::SampleCount, value: 0 },
            ),
            total > 0 ==> r is Ok && r->Ok_0.wf() && r->Ok_0.n_spec() == geometry.half_spec()
                && r->Ok_0.total_spec() == total && r->Ok_0.read_spec() == 0
                && r->Ok_0.write_spec() == 0 && r->Ok_0.remaining() == plan_of(
                geometry.half_spec() as usize,
                total,
            ),
    {
        if total == 0 {
            Err(CodecError::InvalidConfiguration { setting: Setting::SampleCount, value: 0 })
        } else {
            Ok(Schedule { n: geometry.half(), total, read: 0, write: 0 })
        }
    }

    /// Classifies the next step, advances the cursors past it and returns it;
    /// `None` once the whole output has been produced.
    pub fn next_step(&mut self) -> (r: Option<Step>)
        requires
            old(self).wf(),
        ensures
            final(self).wf(),
            final(self).n_spec() == old(self).n_spec(),
            final(self).total_spec() == old(self).total_spec(),
            old(self).write_spec() == old(self).total_spec() ==> r is None && *final(self)
                == *old(self),
            old(self).write_spec() < old(self).total_spec() ==> r == Some(
                step_for(
                    old(self).n_spec(),
                    old(self).total_spec(),
                    old(self).read_spec(),
                    old(self).write_spec(),
                ),
            ),
            r is Some ==> final(self).read_spec() == input_end(r->Some_0)
                && final(self).write_spec() == output_end(r->Some_0),
            old(self).remaining() == match r {
                None => Seq::<Step>::empty(),
                Some(s) => seq![s] + final(self).remaining(),
            },
    {
        proof {
            reveal(steps_from);
        }
        if self.write == self.total {
            return None;
        }
        let n = self.n;
        let total = self.total;
        let read = self.read;
        let write = self.write;
        let stage = if read == 0 {
            Stage::First
        } else if n <= total - read {
            Stage::Interior
        } else if read < total {
            Stage::Tail
        } else {
            Stage::Flush
        };
        let input_len = if n <= total - read {
            n
        } else {
            total - read
        };
        let output_len = if read == 0 {
            0
        } else if n <= total - write {
            n
        } else {
            total - write
        };
        let step = Step { stage, input_start: read, input_len, output_start: write, output_len };
        self.read = read + input_len;
        self.write = write + output_len;
        Some(step)
    }

    /// Whether the whole output has been produced.
    pub fn is_done(&self) -> (r: bool)
        ensures
            r == (self.write_spec() == self.total_spec()),
    {
        self.write == self.total
    }

    /// How many input samples have been consumed.
    pub fn read_cursor(&self) -> (r: usize)
        ensures
            r == self.read_spec(),
    {
        self.read
    }

    /// How many output samples have been produced.
    pub fn write_cursor(&self) -> (r: usize)
        ensures
            r == self.write_spec(),
    {
        self.write
    }

    /// The length of the signal, in samples.
    pub fn total(&self) -> (r: usize)
        ensures
            r == self.total_spec(),
    {
        self.total
    }

    /// Checks that an input and an output buffer both have the signal's
    /// length; the input is checked first.
    pub fn check_buffers(&self, input_len: usize, output_len: usize) -> (r: Result<(), CodecError>)
        ensures
            input_len == self.total_spec() && output_len == self.total_spec() ==> r is Ok,
            input_len != self.total_spec() ==> r == Err::<(), CodecError>(
                CodecError::LengthMismatch { expected: self.total_spec(), found: input_len },
            ),
            input_len == self.total_spec() && output_len != self.total_spec() ==> r == Err::<
                (),
                CodecError,
            >(CodecError::LengthMismatch { expected: self.total_spec(), found: output_len }),
    {
        if input_len != self.total {
            Err(CodecError::LengthMismatch { expected: self.total, found: input_len })
        } else if output_len != self.total {
            Err(CodecError::LengthMismatch { expected: self.total, found: output_len })
        } else {
            Ok(())
        }
    }
}

/// Lists every step of processing a signal of `total` samples with the
/// given geometry; an empty signal is refused.
pub fn plan(geometry: &BlockGeometry, total: usize) -> (r: Result<Vec<Step>, CodecError>)
    requires
        geometry.wf(),
    ensures
        total == 0 ==> r == Err::<Vec<Step>, CodecError>(
            CodecError::InvalidConfiguration { setting: Setting::SampleCount, value: 0 },
        ),
        total > 0 ==> r is Ok && r->Ok_0@ == plan_of(geometry.half_spec() as usize, total),
{
    let mut schedule = match Schedule::new(geometry, total) {
        Ok(s) => s,
        Err(e) => return Err(e),
    };
    let mut steps: Vec<Step> = Vec::new();
    loop
        invariant
            schedule.wf(),
            schedule.n_spec() == geometry.half_spec(),
            schedule.total_spec() == total,
            plan_of(geometry.half_spec() as usize, total) == steps@ + schedule.remaining(),
        decreases 2 * schedule.total_spec() - schedule.read_spec() - schedule.write_spec(),
    {
        match schedule.next_step() {
            None => {
                assert(steps@ + Seq::<Step>::empty() =~= steps@);
                return Ok(steps);
            },
            Some(step) => {
                assert(steps@ + (seq![step] + schedule.remaining()) =~= steps@.push(step)
                    + schedule.remaining());
                steps.push(step);
            },
        }
    }
}

} // verus!
