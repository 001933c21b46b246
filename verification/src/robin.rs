//! The bounded cursor: a tri-state cyclic position tracker. It is either
//! unset or parked at an index below `max`; unset doubles as the initial
//! state and as the "range exhausted" state, which lets the odometer treat
//! starting and carrying identically.

use vstd::prelude::*;

verus! {

#[derive(Clone, Copy, Debug)]
pub struct RoundRobin {
    pub max: usize,
    pub cursor: Option<usize>,
}

impl RoundRobin {
    /// A set cursor always points below `max`.
    pub open spec fn wf(self) -> bool {
        match self.cursor {
            Some(k) => (k as int) < (self.max as int),
            None => true,
        }
    }

    /// Position in the cyclic order: unset counts as 0, index `k` as `k + 1`.
    /// This is the digit value the odometer's termination measure reads.
    pub open spec fn digit(self) -> int {
        match self.cursor {
            None => 0,
            Some(k) => k + 1,
        }
    }

    pub fn new(max: usize) -> (r: RoundRobin)
        ensures
            r.max == max,
            r.cursor is None,
            r.wf(),
    {
        RoundRobin { max, cursor: None }
    }

    /// Turns the cursor one position and reports whether it made a full
    /// round: unset moves to index 0 when the range is non-empty; the last
    /// index, or unset over an empty range, wraps back to unset and reports
    /// true. The wrap report is the odometer's carry.
    pub fn next(&mut self) -> (turned: bool)
        requires
            old(self).wf(),
        ensures
            final(self).wf(),
            final(self).max == old(self).max,
            final(self).cursor == (match old(self).cursor {
                None => if old(self).max > 0 {
                    Some(0usize)
                } else {
                    None
                },
                Some(c) => if c + 1 < old(self).max {
                    Some((c + 1) as usize)
                } else {
                    None
                },
            }),
            turned == (final(self).cursor is None),
    {
        let mut turned = false;
        let new_cursor = match self.cursor {
            Some(c) => {
                if c + 1 < self.max {
                    Some(c + 1)
                } else {
                    turned = true;
                    None
                }
            },
            None => {
                if self.max > 0 {
                    Some(0usize)
                } else {
                    turned = true;
                    None
                }
            },
        };
        self.cursor = new_cursor;
        turned
    }

    /// Moves the cursor straight to `to`: an absent or out-of-range target
    /// parks it unset. Reports true exactly when it lands unset. Used only
    /// by the shortcut mechanism, never as a relative move.
    pub fn jump(&mut self, to: Option<usize>) -> (turned: bool)
        ensures
            final(self).wf(),
            final(self).max == old(self).max,
            final(self).cursor == (match to {
                Some(t) => if t < old(self).max {
                    Some(t)
                } else {
                    None
                },
                None => None::<usize>,
            }),
            turned == (final(self).cursor is None),
    {
        let mut turned = false;
        let new_cursor = match to {
            Some(t) => {
                if t < self.max {
                    Some(t)
                } else {
                    turned = true;
                    None
                }
            },
            None => {
                turned = true;
                None
            },
        };
        self.cursor = new_cursor;
        turned
    }

    /// Relative advance by `hops` positions, where the unset state counts as
    /// the position one before index 0: from unset, `skip(h)` lands on
    /// `h - 1` when that is in range, and in particular `skip(0)` from unset
    /// wraps. Any move past the end wraps to unset and reports true.
    pub fn skip(&mut self, hops: usize) -> (turned: bool)
        requires
            old(self).wf(),
        ensures
            final(self).wf(),
            final(self).max == old(self).max,
            final(self).cursor == (match old(self).cursor {
                Some(c) => if hops < old(self).max - c {
                    Some((c + hops) as usize)
                } else {
                    None
                },
                None => if 1 <= hops && hops <= old(self).max {
                    Some((hops - 1) as usize)
                } else {
                    None::<usize>
                },
            }),
            turned == (final(self).cursor is None),
    {
        let new_cursor = match self.cursor {
            Some(c) => {
                if hops < self.max - c {
                    Some(c + hops)
                } else {
                    None
                }
            },
            None => {
                if 1 <= hops && hops <= self.max {
                    Some(hops - 1)
                } else {
                    None
                }
            },
        };
        let turned = new_cursor.is_none();
        self.cursor = new_cursor;
        turned
    }

    /// Reads the current state without side effect.
    pub fn state(&self) -> (r: Option<usize>)
        ensures
            r == self.cursor,
    {
        self.cursor
    }
}

} // verus!
