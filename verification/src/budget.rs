//! The global byte budget shared by every table of the cache.
//!
//! A reservation succeeds only while it leaves the counter non-negative;
//! a refused reservation leaves the counter untouched. Shrinking a table
//! releases its bytes back.

use vstd::prelude::*;

verus! {

/// Signed count of bytes the cache may still allocate.
///
/// The counter may be driven negative by `add_signed` (used when the cache
/// is resized below its current footprint); `reserve` then refuses until
/// enough bytes have been released.
pub struct Budget {
    pub room: isize,
}

impl Budget {
    pub open spec fn room(&self) -> int {
        self.room as int
    }

    pub fn new(room: isize) -> (r: Self)
        ensures
            r.room() == room as int,
    {
        Self { room }
    }

    pub fn room_left(&self) -> (r: isize)
        ensures
            r as int == self.room(),
    {
        self.room
    }

    /// Try to claim `n` bytes; succeeds exactly when `n` bytes are left.
    pub fn reserve(&mut self, n: usize) -> (ok: bool)
        ensures
            ok == (n as int <= old(self).room()),
            ok ==> final(self).room() == old(self).room() - n,
            !ok ==> final(self).room() == old(self).room(),
    {
        if n <= isize::MAX as usize {
            match self.room.checked_sub(n as isize) {
                Some(rest) => {
                    if rest >= 0 {
                        self.room = rest;
                        true
                    } else {
                        false
                    }
                },
                None => false,
            }
        } else {
            // More bytes than the counter could ever hold.
            false
        }
    }

    /// Give `n` bytes back.
    pub fn release(&mut self, n: usize)
        requires
            n <= isize::MAX,
            old(self).room() + n <= isize::MAX,
        ensures
            final(self).room() == old(self).room() + n,
    {
        self.room = self.room + (n as isize);
    }

    /// Shift the counter by a signed amount; the one operation that may
    /// leave it negative.
    pub fn add_signed(&mut self, delta: isize)
        requires
            isize::MIN <= old(self).room() + delta <= isize::MAX,
        ensures
            final(self).room() == old(self).room() + delta,
    {
        self.room = self.room + delta;
    }

    /// Overwrite the counter, as `clear` and pruning do after recomputing
    /// the cache's footprint.
    pub fn set(&mut self, room: isize)
        ensures
            final(self).room() == room as int,
    {
        self.room = room;
    }
}

} // verus!
