//! The registration list: a small vector of `(identity, registration index)`
//! pairs, kept inline for the handful of entries a session usually holds.
use smallvec::SmallVec;
use vstd::prelude::*;

verus! {

/// One registered resource: its identity, which orders acquisition, and the
/// position at which it was registered.
pub type Slot = (usize, usize);

/// The inline-then-heap vector that holds the registration list; Verus sees
/// it only through `slots_of` and the functions below.
#[verifier::external_body]
pub struct SlotVec {
    inner: SmallVec<[Slot; 4]>,
}

/// The entries held by a registration list, front to back.
pub uninterp spec fn slots_of(v: SlotVec) -> Seq<Slot>;

/// Relies on `SmallVec::new`: the new vector holds nothing.
#[verifier::external_body]
pub(crate) fn slots_new() -> (r: SlotVec)
    ensures
        slots_of(r) == Seq::<Slot>::empty(),
{
    SlotVec { inner: SmallVec::new() }
}

/// Relies on `SmallVec::len`: the number of entries held.
#[verifier::external_body]
pub(crate) fn slots_len(v: &SlotVec) -> (r: usize)
    ensures
        r == slots_of(*v).len(),
{
    v.inner.len()
}

/// Relies on `SmallVec`'s `Index<usize>`: the entry at position `i`.
#[verifier::external_body]
pub(crate) fn slots_at(v: &SlotVec, i: usize) -> (r: Slot)
    requires
        i < slots_of(*v).len(),
    ensures
        r == slots_of(*v)[i as int],
{
    v.inner[i]
}

/// The most entries a registration list is allowed to hold: growing past it
/// could ask for more memory than an allocation may span.
pub const MAX_SLOTS: usize = usize::MAX / 64;

/// Relies on `SmallVec::push`: appends `s` at the end. It panics only when the
/// grown capacity overflows or its size passes `isize::MAX` bytes, which the
/// bound on the length leaves out.
#[verifier::external_body]
pub(crate) fn slots_push(v: &mut SlotVec, s: Slot)
    requires
        slots_of(*old(v)).len() < MAX_SLOTS,
    ensures
        slots_of(*final(v)) == slots_of(*old(v)).push(s),
{
    v.inner.push(s)
}

/// Relies on `SmallVec::insert`: places `s` at position `i`, shifting what
/// follows one place right. It panics when `i` exceeds the length, which
/// `requires` leaves out, and, as `push`, when growing overflows.
#[verifier::external_body]
pub(crate) fn slots_insert(v: &mut SlotVec, i: usize, s: Slot)
    requires
        i <= slots_of(*old(v)).len(),
        slots_of(*old(v)).len() < MAX_SLOTS,
    ensures
        slots_of(*final(v)) == slots_of(*old(v)).insert(i as int, s),
{
    v.inner.insert(i, s)
}

} // verus!
