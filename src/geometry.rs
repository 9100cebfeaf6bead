use vstd::prelude::*;

use crate::error::{CodecError, Setting};

verus! {

/// The shape of one overlapped block: `half` new samples per step and an
/// analysis block of `2 * half` samples.
#[derive(Debug, Clone, Copy, PartialEq, Eq, Structural)]
pub struct BlockGeometry {
    half: usize,
}

/// Where sample `i` of a `2 * n`-sample block finds its window coefficient
/// in a half window of `n` coefficients: the second half mirrors the first.
pub open spec fn mirrored(n: nat, i: nat) -> nat {
    if i < n {
        i
    } else {
        (2 * n - 1 - i) as nat
    }
}

impl BlockGeometry {
    pub closed spec fn half_spec(self) -> nat {
        self.half as nat
    }

    /// A geometry is well formed when the half-size is positive and the full
    /// block length is representable.
    pub open spec fn wf(self) -> bool {
        0 < self.half_spec() && 2 * self.half_spec() <= usize::MAX
    }

    /// Validates a block half-size; zero is refused.
    pub fn new(half: usize) -> (r: Result<BlockGeometry, CodecError>)
        requires
            half <= usize::MAX / 2,
        ensures
            half == 0 ==> r == Err::<BlockGeometry, CodecError>(
                CodecError::InvalidConfiguration { setting: Setting::BlockSize, value: 0 },
            ),
            half > 0 ==> r is Ok && r->Ok_0.wf() && r->Ok_0.half_spec() == half,
    {
        if half == 0 {
            Err(CodecError::InvalidConfiguration { setting: Setting::BlockSize, value: 0 })
        } else {
            Ok(BlockGeometry { half })
        }
    }

    /// The number of new samples per block.
    pub fn half(&self) -> (r: usize)
        ensures
            r == self.half_spec(),
    {
        self.half
    }

    /// The length of the overlapped analysis block.
    pub fn block_len(&self) -> (r: usize)
        requires
            self.wf(),
        ensures
            r == 2 * self.half_spec(),
    {
        2 * self.half
    }

    /// The index of the half-window coefficient that weighs sample `i` of
    /// the analysis block.
    pub fn window_index(&self, i: usize) -> (r: usize)
        requires
            self.wf(),
            i < 2 * self.half_spec(),
        ensures
            r == mirrored(self.half_spec(), i as nat),
            r < self.half_spec(),
    {
        if i < self.half {
            i
        } else {
            2 * self.half - 1 - i
        }
    }
}

} // verus!
