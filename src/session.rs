//! Session brands: every session carries a brand that no other session
//! drawn from the same source shares.
use vstd::prelude::*;

verus! {

/// Hands out session brands, each at most once.
pub struct SessionIds {
    next: u64,
}

impl SessionIds {
    /// The brands handed out so far.
    pub closed spec fn issued(self) -> Set<u64> {
        Set::new(|id: u64| id < self.next)
    }

    /// How many brands have been handed out.
    pub closed spec fn count(self) -> nat {
        self.next as nat
    }

    /// Whether every brand has been handed out.
    pub open spec fn exhausted(self) -> bool {
        self.count() == u64::MAX
    }

    /// A source that has handed out nothing yet.
    pub fn new() -> (r: Self)
        ensures
            r.issued() == Set::<u64>::empty(),
            r.count() == 0,
    {
        let r = SessionIds { next: 0 };
        assert(r.issued() =~= Set::<u64>::empty());
        r
    }

    /// Whether every brand has been handed out.
    pub fn is_exhausted(&self) -> (r: bool)
        ensures
            r == self.exhausted(),
    {
        self.next == u64::MAX
    }

    /// A brand that was never handed out before, or `None` once all have
    /// been.
    pub fn issue(&mut self) -> (r: Option<u64>)
        ensures
            r.is_none() <==> old(self).exhausted(),
            r.is_none() ==> *final(self) == *old(self),
            r.is_some() ==> final(self).count() == old(self).count() + 1,
            r matches Some(id) ==> !old(self).issued().contains(id) && final(self).issued()
                == old(self).issued().insert(id),
    {
        if self.next == u64::MAX {
            return None;
        }
        let id = self.next;
        let ghost before = self.issued();
        self.next = self.next + 1;
        assert(self.issued() =~= before.insert(id));
        Some(id)
    }
}

} // verus!
