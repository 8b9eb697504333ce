use vstd::prelude::*;

use crate::constants::NodeId;

verus! {

/// A collection of boolean flags, one per node, that are all reset at once by
/// incrementing a single counter.
pub struct ValidFlags {
    valid_flags: Vec<u32>,
    valid_flag: u32,
}

impl View for ValidFlags {
    type V = Seq<bool>;

    /// The flags as booleans: entry `i` tells whether node `i` is valid.
    closed spec fn view(&self) -> Seq<bool> {
        Seq::new(self.valid_flags@.len(), |i: int| self.valid_flags@[i] == self.valid_flag)
    }
}

impl ValidFlags {
    /// No stored tag is ahead of the current one, and the current one is never zero.
    pub closed spec fn wf(&self) -> bool {
        &&& self.valid_flag >= 1
        &&& forall|i: int|
            0 <= i < self.valid_flags@.len() ==> #[trigger] self.valid_flags@[i] <= self.valid_flag
    }

    pub fn new(num_nodes: usize) -> (flags: Self)
        ensures
            flags.wf(),
            flags@ == Seq::new(num_nodes as nat, |i: int| false),
    {
        let flags = ValidFlags { valid_flags: vec![0; num_nodes], valid_flag: 1 };
        assert(flags@ =~= Seq::new(num_nodes as nat, |i: int| false));
        flags
    }

    /// The number of flags.
    pub fn len(&self) -> (n: usize)
        ensures
            n == self@.len(),
    {
        self.valid_flags.len()
    }

    pub fn is_valid(&self, node: NodeId) -> (valid: bool)
        requires
            node < self@.len(),
        ensures
            valid == self@[node as int],
    {
        self.valid_flags[node] == self.valid_flag
    }

    pub fn set_valid(&mut self, node: NodeId)
        requires
            old(self).wf(),
            node < old(self)@.len(),
        ensures
            final(self).wf(),
            final(self)@ == old(self)@.update(node as int, true),
    {
        self.valid_flags[node] = self.valid_flag;
        assert(self@ =~= old(self)@.update(node as int, true));
    }

    pub fn invalidate_all(&mut self)
        requires
            old(self).wf(),
        ensures
            final(self).wf(),
            final(self)@ == Seq::new(old(self)@.len(), |i: int| false),
    {
        if self.valid_flag == u32::MAX {
            let n = self.valid_flags.len();
            self.valid_flags = vec![0; n];
            self.valid_flag = 1;
        } else {
            self.valid_flag += 1;
        }
        assert(self@ =~= Seq::new(old(self)@.len(), |i: int| false));
    }
}

} // verus!
