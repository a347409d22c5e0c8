//! Token usage of one worker.
use vstd::prelude::*;

verus! {

/// The tokens that programs hold on a worker, and the same with idle programs discounted.
#[derive(Clone, Copy, Debug, PartialEq, Eq, Structural)]
pub struct WorkerUsage {
    pub used: usize,
    pub decayed: usize,
}

impl Default for WorkerUsage {
    fn default() -> (usage: Self)
        ensures
            usage == (WorkerUsage { used: 0, decayed: 0 }),
    {
        WorkerUsage { used: 0, decayed: 0 }
    }
}

impl WorkerUsage {
    /// Usage with one more program of the given tokens and headroom.
    pub open spec fn with_program(self, normal: usize, decayed: usize, buffer: usize) -> Self {
        WorkerUsage {
            used: self.used.saturating_add(normal).saturating_add(buffer),
            decayed: self.decayed.saturating_add(decayed).saturating_add(buffer),
        }
    }

    /// Usage with one program of the given tokens and headroom less.
    pub open spec fn without_program(self, normal: usize, decayed: usize, buffer: usize) -> Self {
        WorkerUsage {
            used: self.used.saturating_sub(normal).saturating_sub(buffer),
            decayed: self.decayed.saturating_sub(decayed).saturating_sub(buffer),
        }
    }

    pub fn add_program(&mut self, normal: usize, decayed: usize, buffer: usize)
        ensures
            *final(self) == old(self).with_program(normal, decayed, buffer),
    {
        self.used = self.used.saturating_add(normal).saturating_add(buffer);
        self.decayed = self.decayed.saturating_add(decayed).saturating_add(buffer);
    }

    pub fn remove_program(&mut self, normal: usize, decayed: usize, buffer: usize)
        ensures
            *final(self) == old(self).without_program(normal, decayed, buffer),
    {
        self.used = self.used.saturating_sub(normal).saturating_sub(buffer);
        self.decayed = self.decayed.saturating_sub(decayed).saturating_sub(buffer);
    }

    /// A program adds its tokens and its headroom, as far as the sum can be counted, and takes them
    /// away again, down to zero.
    pub proof fn lemma_sums(self, normal: usize, decayed: usize, buffer: usize)
        ensures
            ({
                let more = self.with_program(normal, decayed, buffer);
                let used = self.used + normal + buffer;
                let left = self.decayed + decayed + buffer;
                &&& more.used == (if used <= usize::MAX {
                    used
                } else {
                    usize::MAX as int
                })
                &&& more.decayed == (if left <= usize::MAX {
                    left
                } else {
                    usize::MAX as int
                })
            }),
            ({
                let less = self.without_program(normal, decayed, buffer);
                let used = self.used - normal - buffer;
                let left = self.decayed - decayed - buffer;
                &&& less.used == (if used >= 0 {
                    used
                } else {
                    0
                })
                &&& less.decayed == (if left >= 0 {
                    left
                } else {
                    0
                })
            }),
    {
    }

    /// Removing a program undoes adding it, as long as the sums did not saturate.
    pub proof fn lemma_remove_undoes_add(self, normal: usize, decayed: usize, buffer: usize)
        requires
            self.used + normal + buffer <= usize::MAX,
            self.decayed + decayed + buffer <= usize::MAX,
        ensures
            self.with_program(normal, decayed, buffer).without_program(normal, decayed, buffer)
                == self,
    {
    }
}

} // verus!
