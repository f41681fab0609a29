//! Sessions: registration, ordered acquisition, and brand-gated access.
use crate::order::{ascending, identities, is_acquisition_order, lemma_identities_insert, lemma_identities_push};
use crate::session::SessionIds;
use crate::slots::{MAX_SLOTS, slots_at, slots_insert, slots_len, slots_new, slots_of, slots_push, Slot, SlotVec};
use vstd::prelude::*;

verus! {

broadcast use vstd::seq_lib::group_to_multiset_ensures;

/// An exclusive lock that a session can take part in, seen through a handle.
///
/// `id_of` is the lock's identity: stable, and different for every lock that
/// may be registered in the same session (an address serves). `is_held`
/// says whether this handle holds the lock. `acquire` blocks until the lock
/// is held; `release` lets go of it.
pub trait RawLock {
    spec fn id_of(&self) -> usize;

    spec fn is_held(&self) -> bool;

    fn identity(&self) -> (r: usize)
        ensures
            r == self.id_of(),
    ;

    fn acquire(&mut self)
        ensures
            final(self).is_held(),
            final(self).id_of() == old(self).id_of(),
    ;

    fn release(&mut self)
        ensures
            !final(self).is_held(),
            final(self).id_of() == old(self).id_of(),
    ;
}

/// Collects the locks of one session before any of them is taken.
pub struct Builder<L> {
    session: u64,
    slots: SlotVec,
    resources: Vec<L>,
}

/// Refers to one lock registered with a `Builder`; together with the
/// `Locker` of the same session it gives access to that lock.
pub struct Token {
    session: u64,
    index: usize,
    identity: usize,
}

/// Holds every lock of a session, taken in ascending identity order; lets
/// them all go, each once, when released.
#[must_use]
pub struct Locker<L> {
    session: u64,
    order: SlotVec,
    resources: Vec<L>,
    place: Ghost<Seq<int>>,
    acquired: Ghost<Seq<usize>>,
    released: Ghost<Seq<usize>>,
    active: bool,
}

/// The identities of a list of locks, in the same order.
pub open spec fn ids_of<L: RawLock>(s: Seq<L>) -> Seq<usize> {
    s.map_values(|l: L| l.id_of())
}

impl<L: RawLock> Builder<L> {
    /// Each registered slot records its own registration index and the
    /// identity of its lock, and no identity is registered twice.
    pub closed spec fn wf(self) -> bool {
        &&& slots_of(self.slots).len() == self.resources@.len()
        &&& slots_of(self.slots).len() <= MAX_SLOTS
        &&& forall|i: int|
            0 <= i < slots_of(self.slots).len() ==> (#[trigger] slots_of(self.slots)[i]).1 == i
                && slots_of(self.slots)[i].0 == self.resources@[i].id_of()
        &&& identities(slots_of(self.slots)).no_duplicates()
    }

    /// The brand of the session this builder belongs to.
    pub closed spec fn session(self) -> u64 {
        self.session
    }

    /// What has been registered so far, in registration order: each lock's
    /// identity and its registration index.
    pub closed spec fn registered(self) -> Seq<Slot> {
        slots_of(self.slots)
    }

    /// The locks registered so far, in registration order.
    pub closed spec fn resources(self) -> Seq<L> {
        self.resources@
    }

    /// An empty builder for a new session, branded with a brand that `ids`
    /// never handed out before.
    pub fn new(ids: &mut SessionIds) -> (r: Self)
        requires
            !old(ids).exhausted(),
        ensures
            r.wf(),
            !old(ids).issued().contains(r.session()),
            final(ids).issued() == old(ids).issued().insert(r.session()),
            final(ids).count() == old(ids).count() + 1,
            r.registered() == Seq::<Slot>::empty(),
            r.resources() == Seq::<L>::empty(),
    {
        let session = match ids.issue() {
            Some(id) => id,
            None => {
                proof {
                    assert(false);
                }
                0
            },
        };
        let r = Builder { session, slots: slots_new(), resources: Vec::new() };
        proof {
            assert(identities(slots_of(r.slots)) =~= Seq::<usize>::empty());
        }
        r
    }

    /// The number of locks registered so far.
    pub fn len(&self) -> (r: usize)
        requires
            self.wf(),
        ensures
            r == self.registered().len(),
    {
        slots_len(&self.slots)
    }

    /// Registers `resource`, to be taken by `finish`; nothing is locked or
    /// unlocked here. A lock whose identity is already registered is refused
    /// (`None`), since `finish` would otherwise take it twice.
    pub fn add(&mut self, resource: L) -> (token: Option<Token>)
        requires
            old(self).wf(),
            old(self).registered().len() < MAX_SLOTS,
        ensures
            final(self).wf(),
            final(self).session() == old(self).session(),
            token.is_none() <==> identities(old(self).registered()).contains(resource.id_of()),
            token.is_none() ==> *final(self) == *old(self),
            token matches Some(t) ==> {
                &&& final(self).registered() == old(self).registered().push(
                    (resource.id_of(), old(self).registered().len() as usize),
                )
                &&& final(self).resources() == old(self).resources().push(resource)
                &&& t.session() == old(self).session()
                &&& t.index() == old(self).registered().len()
                &&& t.identity() == resource.id_of()
            },
    {
        let identity = resource.identity();
        let n = slots_len(&self.slots);
        let mut i: usize = 0;
        while i < n
            invariant
                *self == *old(self),
                old(self).wf(),
                identity == resource.id_of(),
                n == slots_of(self.slots).len(),
                0 <= i <= n,
                forall|k: int| 0 <= k < i ==> (#[trigger] slots_of(self.slots)[k]).0 != identity,
            decreases n - i,
        {
            let slot = slots_at(&self.slots, i);
            if slot.0 == identity {
                proof {
                    assert(slot == slots_of(self.slots)[i as int]);
                    assert(identity == resource.id_of());
                    assert(identities(slots_of(self.slots))[i as int] == identity);
                    assert(identities(slots_of(self.slots)).contains(identity));
                    assert(identities(old(self).registered()).contains(resource.id_of()));
                }
                return None;
            }
            i = i + 1;
        }
        proof {
            assert forall|k: int| 0 <= k < n implies identities(slots_of(self.slots))[k]
                != identity by {
                assert(slots_of(self.slots)[k].0 != identity);
            }
        }
        let ghost before = slots_of(self.slots);
        slots_push(&mut self.slots, (identity, n));
        self.resources.push(resource);
        proof {
            lemma_identities_push(before, (identity, n));
            assert forall|i: int, j: int|
                0 <= i < j < slots_of(self.slots).len() implies identities(slots_of(self.slots))[i]
                != identities(slots_of(self.slots))[j] by {
                if j == n {
                    assert(identities(slots_of(self.slots))[j] == identity);
                    assert(identities(slots_of(self.slots))[i] == identities(before)[i]);
                } else {
                    assert(identities(slots_of(self.slots))[i] == identities(before)[i]);
                    assert(identities(slots_of(self.slots))[j] == identities(before)[j]);
                }
            }
        }
        Some(Token { session: self.session, index: n, identity })
    }

    /// Takes every registered lock, one after another, in ascending identity
    /// order, and hands back the `Locker` that holds them.
    pub fn finish(self) -> (locker: Locker<L>)
        requires
            self.wf(),
        ensures
            locker.wf(),
            locker.session() == self.session(),
            locker.is_active(),
            locker.order().to_multiset() == self.registered().to_multiset(),
            is_acquisition_order(identities(self.registered()), locker.acquired()),
            locker.acquired() == identities(locker.order()),
            locker.released() == Seq::<usize>::empty(),
            ids_of(locker.resources()) == ids_of(self.resources()),
            forall|i: int| 0 <= i < locker.resources().len() ==> #[trigger] locker.resources()[i].is_held(),
    {
        let Builder { session, slots, resources } = self;
        let mut resources = resources;
        let n = slots_len(&slots);
        let ghost registered = slots_of(slots);
        let ghost originals = resources@;
        let mut order = slots_new();
        let mut i: usize = 0;
        while i < n
            invariant
                n == registered.len(),
                n <= MAX_SLOTS,
                registered == slots_of(slots),
                n == resources@.len(),
                forall|k: int| 0 <= k < n ==> (#[trigger] registered[k]).1 == k,
                0 <= i <= n,
                slots_of(order).len() == i,
                slots_of(order).to_multiset() == registered.subrange(0, i as int).to_multiset(),
                ascending(identities(slots_of(order))),
                identities(slots_of(order)).to_multiset() == identities(
                    registered.subrange(0, i as int),
                ).to_multiset(),
            decreases n - i,
        {
            let slot = slots_at(&slots, i);
            // Insert after every entry whose identity does not exceed this one.
            let mut pos: usize = 0;
            while pos < i && slots_at(&order, pos).0 <= slot.0
                invariant
                    0 <= pos <= i,
                    i == slots_of(order).len(),
                    forall|k: int| 0 <= k < pos ==> (#[trigger] slots_of(order)[k]).0 <= slot.0,
                decreases i - pos,
            {
                pos = pos + 1;
            }
            let ghost before = slots_of(order);
            slots_insert(&mut order, pos, slot);
            proof {
                let prefix = registered.subrange(0, i as int);
                assert(registered.subrange(0, i + 1) =~= prefix.push(slot));
                lemma_identities_insert(before, pos as int, slot);
                lemma_identities_push(prefix, slot);
                vstd::seq_lib::to_multiset_insert(before, pos as int, slot);
                vstd::seq_lib::to_multiset_insert(identities(before), pos as int, slot.0);
                let after = slots_of(order);
                before.insert_ensures(pos as int, slot);
                assert forall|p: int, q: int|
                    0 <= p < q < after.len() implies identities(after)[p] <= identities(after)[q] by {
                    if q < pos {
                    } else if q == pos {
                        assert(after[p] == before[p]);
                    } else if p <= pos {
                        assert(after[q] == before[q - 1]);
                        assert(before[pos as int].0 > slot.0);
                        if pos < q - 1 {
                            assert(identities(before)[pos as int] <= identities(before)[q - 1]);
                        }
                    } else {
                        assert(after[p] == before[p - 1]);
                        assert(after[q] == before[q - 1]);
                    }
                }
            }
            i = i + 1;
        }
        proof {
            assert(registered.subrange(0, n as int) =~= registered);
        }
        let ghost sorted = slots_of(order);
        // Every sorted slot is a registered one, and every registered one is sorted.
        let ghost place = Seq::new(
            n as nat,
            |j: int| choose|p: int| 0 <= p < n && sorted[p] == registered[j],
        );
        proof {
            assert forall|p: int| 0 <= p < n implies (#[trigger] sorted[p]).1 < n
                && originals[sorted[p].1 as int].id_of() == sorted[p].0 by {
                assert(sorted.contains(sorted[p]));
                assert(sorted.to_multiset().count(sorted[p]) > 0);
                assert(registered.contains(sorted[p]));
                let j = choose|j: int| 0 <= j < n && registered[j] == sorted[p];
                assert(registered[j].1 == j);
            }
            assert forall|j: int| 0 <= j < n implies 0 <= #[trigger] place[j] < n && sorted[place[j]].1
                == j by {
                assert(registered.contains(registered[j]));
                assert(registered.to_multiset().count(registered[j]) > 0);
                assert(sorted.contains(registered[j]));
            }
        }
        let ghost mut acquired: Seq<usize> = Seq::empty();
        let mut k: usize = 0;
        while k < n
            invariant
                0 <= k <= n,
                sorted == slots_of(order),
                sorted.len() == n,
                n == resources@.len(),
                n == originals.len(),
                forall|p: int| 0 <= p < n ==> (#[trigger] sorted[p]).1 < n
                    && originals[sorted[p].1 as int].id_of() == sorted[p].0,
                forall|j: int| 0 <= j < n ==> #[trigger] resources@[j].id_of() == originals[j].id_of(),
                forall|p: int| 0 <= p < k ==> (#[trigger] resources@[sorted[p].1 as int]).is_held(),
                acquired == identities(sorted).subrange(0, k as int),
            decreases n - k,
        {
            let slot = slots_at(&order, k);
            resources[slot.1].acquire();
            proof {
                acquired = acquired.push(resources@[slot.1 as int].id_of());
                assert(acquired =~= identities(sorted).subrange(0, k + 1));
                assert forall|p: int| 0 <= p < k + 1 implies (#[trigger] resources@[sorted[p].1 as int]).is_held() by {
                    if p < k {
                        assert(resources@[sorted[p].1 as int].is_held() || sorted[p].1 == slot.1);
                    }
                }
            }
            k = k + 1;
        }
        proof {
            assert(acquired =~= identities(sorted));
            assert(ids_of(resources@) =~= ids_of(originals));
            assert forall|j: int| 0 <= j < n implies #[trigger] resources@[j].is_held() by {
                assert(sorted[place[j]].1 == j);
                assert(resources@[sorted[place[j]].1 as int].is_held());
            }
        }
        Locker {
            session,
            order,
            resources,
            place: Ghost(place),
            acquired: Ghost(acquired),
            released: Ghost(Seq::empty()),
            active: true,
        }
    }
}

impl Token {
    /// The brand of the session that issued this token.
    pub closed spec fn session(self) -> u64 {
        self.session
    }

    /// The position at which the lock was registered.
    pub closed spec fn index(self) -> usize {
        self.index
    }

    /// The identity of the lock when it was registered.
    pub closed spec fn identity(self) -> usize {
        self.identity
    }

    /// Whether `locker` honours this token: see `Locker::honours`.
    pub fn belongs_to<L: RawLock>(&self, locker: &Locker<L>) -> (r: bool)
        requires
            locker.wf(),
        ensures
            r == locker.honours(*self),
    {
        self.session == locker.session && locker.active && self.index < locker.resources.len()
            && locker.resources[self.index].identity() == self.identity
    }

    /// The registered lock, reachable only through the live locker of the
    /// same session, which holds it.
    pub fn get<'b, L: RawLock>(&self, locker: &'b Locker<L>) -> (r: &'b L)
        requires
            locker.wf(),
            locker.honours(*self),
        ensures
            *r == locker.resources()[self.index() as int],
            r.id_of() == self.identity(),
            r.is_held(),
    {
        &locker.resources[self.index]
    }
}

impl<L: RawLock> Locker<L> {
    /// The sorted slots name every lock once, each with its identity; the
    /// recorded acquisitions follow them; while active every lock is held,
    /// and once released none is, each having been let go.
    pub closed spec fn wf(self) -> bool {
        let order = slots_of(self.order);
        let n = self.resources@.len();
        &&& order.len() == n
        &&& forall|p: int|
            0 <= p < n ==> (#[trigger] order[p]).1 < n && self.resources@[order[p].1 as int].id_of()
                == order[p].0
        &&& self.place@.len() == n
        &&& forall|j: int| 0 <= j < n ==> 0 <= #[trigger] self.place@[j] < n && order[self.place@[j]].1 == j
        &&& self.acquired@ == identities(order)
        &&& self.active ==> forall|j: int| 0 <= j < n ==> #[trigger] self.resources@[j].is_held()
        &&& !self.active ==> self.released@ == self.acquired@
        &&& !self.active ==> forall|j: int| 0 <= j < n ==> !(#[trigger] self.resources@[j].is_held())
    }

    /// The brand of the session this locker belongs to.
    pub closed spec fn session(self) -> u64 {
        self.session
    }

    /// The registered slots in the order their locks were taken.
    pub closed spec fn order(self) -> Seq<Slot> {
        slots_of(self.order)
    }

    /// The locks of the session, in registration order.
    pub closed spec fn resources(self) -> Seq<L> {
        self.resources@
    }

    /// The identities of the locks taken, in the order they were taken.
    pub closed spec fn acquired(self) -> Seq<usize> {
        self.acquired@
    }

    /// The identities of the locks let go so far, in the order they were let go.
    pub closed spec fn released(self) -> Seq<usize> {
        self.released@
    }

    /// Whether the locks are still held.
    pub closed spec fn is_active(self) -> bool {
        self.active
    }

    /// Whether `token` may be used with this locker: it comes from the same
    /// session, the locks are still held, and the lock it names is one of
    /// this locker's, with the identity the token recorded.
    pub open spec fn honours(self, token: Token) -> bool {
        &&& token.session() == self.session()
        &&& self.is_active()
        &&& token.index() < self.resources().len()
        &&& self.resources()[token.index() as int].id_of() == token.identity()
    }

    /// Whether the locks are still held.
    pub fn holds(&self) -> (r: bool)
        ensures
            r == self.is_active(),
    {
        self.active
    }

    /// Lets go of every lock this locker holds, each exactly once; does
    /// nothing if they were already let go.
    pub fn release(&mut self)
        requires
            old(self).wf(),
        ensures
            final(self).wf(),
            final(self).session() == old(self).session(),
            final(self).order() == old(self).order(),
            ids_of(final(self).resources()) == ids_of(old(self).resources()),
            final(self).acquired() == old(self).acquired(),
            !final(self).is_active(),
            final(self).released() == old(self).acquired(),
            forall|j: int| 0 <= j < final(self).resources().len() ==> !(#[trigger] final(self).resources()[j].is_held()),
    {
        if !self.active {
            return;
        }
        let n = slots_len(&self.order);
        let ghost sorted = slots_of(self.order);
        let ghost originals = self.resources@;
        let ghost mut released: Seq<usize> = Seq::empty();
        let mut k: usize = 0;
        while k < n
            invariant
                0 <= k <= n,
                sorted == slots_of(self.order),
                n == sorted.len(),
                n == self.resources@.len(),
                n == originals.len(),
                forall|p: int| 0 <= p < n ==> (#[trigger] sorted[p]).1 < n
                    && originals[sorted[p].1 as int].id_of() == sorted[p].0,
                forall|j: int| 0 <= j < n ==> #[trigger] self.resources@[j].id_of() == originals[j].id_of(),
                forall|p: int| 0 <= p < k ==> !(#[trigger] self.resources@[sorted[p].1 as int]).is_held(),
                released == identities(sorted).subrange(0, k as int),
                self.place@.len() == n,
                forall|j: int| 0 <= j < n ==> 0 <= #[trigger] self.place@[j] < n && sorted[self.place@[j]].1 == j,
                self.acquired@ == identities(sorted),
                self.active,
                self.session == old(self).session,
                self.order == old(self).order,
                self.acquired == old(self).acquired,
            decreases n - k,
        {
            let slot = slots_at(&self.order, k);
            self.resources[slot.1].release();
            proof {
                released = released.push(self.resources@[slot.1 as int].id_of());
                assert(released =~= identities(sorted).subrange(0, k + 1));
                assert forall|p: int| 0 <= p < k + 1 implies !(#[trigger] self.resources@[sorted[p].1 as int]).is_held() by {
                    if p < k {
                        assert(!self.resources@[sorted[p].1 as int].is_held() || sorted[p].1 == slot.1);
                    }
                }
            }
            k = k + 1;
        }
        proof {
            assert(released =~= identities(sorted));
            assert(ids_of(self.resources@) =~= ids_of(originals));
            assert forall|j: int| 0 <= j < n implies !(#[trigger] self.resources@[j].is_held()) by {
                assert(sorted[self.place@[j]].1 == j);
                assert(!self.resources@[sorted[self.place@[j]].1 as int].is_held());
            }
        }
        self.released = Ghost(released);
        self.active = false;
    }
}

/// A token is refused by the locker of any other session, even one that
/// registered the very same locks.
pub proof fn lemma_foreign_token_refused<L: RawLock>(token: Token, locker: Locker<L>)
    requires
        token.session() != locker.session(),
    ensures
        !locker.honours(token),
{
}

/// Runs one session: draws a brand from `ids` that it never handed out
/// before, hands `func` an empty builder of that brand, and returns what
/// `func` returns. Nothing is locked unless `func` finishes the builder.
pub fn multilock<L: RawLock, O, F: FnOnce(Builder<L>) -> O>(ids: &mut SessionIds, func: F) -> (r: O)
    requires
        !old(ids).exhausted(),
        forall|b: Builder<L>|
            b.wf() && !old(ids).issued().contains(b.session()) && b.registered().len() == 0
                && b.resources().len() == 0 ==> call_requires(func, (b,)),
    ensures
        exists|b: Builder<L>|
            b.wf() && !old(ids).issued().contains(b.session()) && final(ids).issued() == old(
                ids,
            ).issued().insert(b.session()) && final(ids).count() == old(ids).count() + 1
                && b.registered().len() == 0 && b.resources().len()
                == 0 && call_ensures(func, (b,), r),
{
    let builder = Builder::new(ids);
    func(builder)
}

} // verus!
