use vstd::prelude::*;

verus! {

/// A bounded stack of up to `LEN` cell addresses, with the address of at
/// most one successor block.
pub struct Block<const LEN: usize> {
    next: Option<usize>,
    data: Vec<usize>,
}

impl<const LEN: usize> Block<LEN> {
    /// The stored addresses, bottom first.
    pub closed spec fn slots(&self) -> Seq<usize> {
        self.data@
    }

    /// The address of the successor block, if any.
    pub closed spec fn successor(&self) -> Option<usize> {
        self.next
    }

    /// An empty block with no successor.
    pub fn new() -> (r: Self)
        ensures
            r.slots() == Seq::<usize>::empty(),
            r.successor() is None,
    {
        Block { next: None, data: Vec::new() }
    }

    /// The number of stored addresses.
    pub fn len(&self) -> (r: usize)
        ensures
            r == self.slots().len(),
    {
        self.data.len()
    }

    /// Exchanges the successor link with `next`.
    pub fn swap_next(&mut self, next: &mut Option<usize>)
        ensures
            final(self).successor() == *old(next),
            *final(next) == old(self).successor(),
            final(self).slots() == old(self).slots(),
    {
        let prev = self.next;
        self.next = *next;
        *next = prev;
    }

    /// Detaches the successor link and returns it.
    pub fn take_next(&mut self) -> (r: Option<usize>)
        ensures
            r == old(self).successor(),
            final(self).successor() is None,
            final(self).slots() == old(self).slots(),
    {
        let prev = self.next;
        self.next = None;
        prev
    }

    /// Stores `addr` on top unless the block already holds `LEN` addresses,
    /// in which case `addr` comes back and the block is unchanged.
    pub fn push(&mut self, addr: usize) -> (r: Result<(), usize>)
        ensures
            old(self).slots().len() < LEN ==> r is Ok && final(self).slots() == old(self).slots().push(addr)
                && final(self).successor() == old(self).successor(),
            old(self).slots().len() >= LEN ==> r == Err::<(), usize>(addr) && *final(self) == *old(self),
    {
        if self.data.len() < LEN {
            self.data.push(addr);
            Ok(())
        } else {
            Err(addr)
        }
    }

    /// Removes and returns the address on top, if any.
    pub fn pop(&mut self) -> (r: Option<usize>)
        ensures
            old(self).slots().len() == 0 ==> r is None && final(self).slots() == old(self).slots()
                && final(self).successor() == old(self).successor(),
            old(self).slots().len() > 0 ==> r == Some(old(self).slots().last())
                && final(self).slots() == old(self).slots().drop_last()
                && final(self).successor() == old(self).successor(),
    {
        self.data.pop()
    }
}

impl<const LEN: usize> Default for Block<LEN> {
    fn default() -> (r: Self)
        ensures
            r.slots() == Seq::<usize>::empty(),
            r.successor() is None,
    {
        Block::new()
    }
}

} // verus!
