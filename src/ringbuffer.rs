use vstd::prelude::*;

use crate::net::{id_eq, Id};

verus! {

/// Fixed-capacity circular memory of identifiers: a push overwrites the
/// oldest slot, and membership is a linear scan.
#[derive(Clone, Debug)]
pub struct Ringbuffer {
    data: Vec<Option<Id>>,
    index: usize,
}

/// The slots of a ring buffer, identifiers taken as byte sequences, and the
/// slot that the next push fills.
pub struct RingView {
    pub slots: Seq<Option<Seq<u8>>>,
    pub index: int,
}

pub open spec fn slot_view(o: Option<Id>) -> Option<Seq<u8>> {
    match o {
        Some(a) => Some(a@),
        None => None,
    }
}

impl RingView {
    pub open spec fn wf(self) -> bool {
        self.slots.len() == 0 || 0 <= self.index < self.slots.len()
    }

    pub open spec fn contains(self, id: Seq<u8>) -> bool {
        exists|i: int| 0 <= i < self.slots.len() && self.slots[i] == Some(id)
    }

    pub open spec fn push(self, id: Seq<u8>) -> RingView {
        RingView {
            slots: self.slots.update(self.index, Some(id)),
            index: (self.index + 1) % (self.slots.len() as int),
        }
    }
}

impl View for Ringbuffer {
    type V = RingView;

    closed spec fn view(&self) -> RingView {
        RingView { slots: self.data@.map_values(|o: Option<Id>| slot_view(o)), index: self.index as int }
    }
}

impl Ringbuffer {
    pub open spec fn capacity(&self) -> nat {
        self@.slots.len()
    }

    pub open spec fn wf(&self) -> bool {
        self@.wf()
    }

    /// An empty ring with `capacity` slots.
    pub fn with_capacity(capacity: usize) -> (r: Ringbuffer)
        ensures
            r.wf(),
            r.capacity() == capacity,
            r@.index == 0,
            forall|i: int| 0 <= i < capacity ==> r@.slots[i] is None,
    {
        let mut data: Vec<Option<Id>> = Vec::new();
        let mut i: usize = 0;
        while i < capacity
            invariant
                i <= capacity,
                data@.len() == i,
                forall|j: int| 0 <= j < i ==> data@[j] is None,
            decreases capacity - i,
        {
            data.push(None);
            i = i + 1;
        }
        Ringbuffer { data, index: 0 }
    }

    /// Stores `item` in the oldest slot and advances.
    pub fn push(&mut self, item: Id)
        requires
            old(self).wf(),
            old(self).capacity() > 0,
        ensures
            final(self).wf(),
            final(self).capacity() == old(self).capacity(),
            final(self)@ == old(self)@.push(item@),
    {
        assert(self@.slots.len() == self.data@.len());
        assert(self.index < self.data@.len());
        let len = self.data.len();
        let next: usize = self.index + 1;
        self.data.set(self.index, Some(item));
        self.index = next % len;
        assert(self@.slots =~= old(self)@.slots.update(old(self)@.index, Some(item@)));
    }

    /// Whether some slot holds `item`.
    pub fn contains(&self, item: &Id) -> (r: bool)
        ensures
            r == self@.contains(item@),
    {
        let mut i: usize = 0;
        while i < self.data.len()
            invariant
                i <= self.data@.len(),
                forall|j: int| 0 <= j < i ==> self@.slots[j] != Some(item@),
            decreases self.data@.len() - i,
        {
            match &self.data[i] {
                Some(x) => {
                    if id_eq(x, item) {
                        assert(self@.slots[i as int] == Some(item@));
                        return true;
                    }
                },
                None => {},
            }
            i = i + 1;
        }
        false
    }
}

/// Right after a push the pushed identifier is remembered.
pub proof fn lemma_push_remembers(r: RingView, id: Seq<u8>)
    requires
        r.wf(),
        r.slots.len() > 0,
    ensures
        r.push(id).contains(id),
        r.push(id).wf(),
{
    assert(r.push(id).slots[r.index] == Some(id));
}

/// The ring after pushing `ids` in order.
pub open spec fn push_all(r: RingView, ids: Seq<Seq<u8>>) -> RingView
    decreases ids.len(),
{
    if ids.len() == 0 {
        r
    } else {
        push_all(r, ids.drop_last()).push(ids.last())
    }
}

/// How many pushes after the one at `from` reach slot `p`.
pub open spec fn ring_distance(p: int, from: int, cap: int) -> int {
    if p >= from {
        p - from
    } else {
        p - from + cap
    }
}

proof fn lemma_next_index(i: int, cap: int)
    requires
        0 <= i < cap,
    ensures
        (i + 1) % cap == if i + 1 < cap {
            i + 1
        } else {
            0
        },
{
    if i + 1 < cap {
        vstd::arithmetic::div_mod::lemma_small_mod((i + 1) as nat, cap as nat);
    } else {
        vstd::arithmetic::div_mod::lemma_mod_self_0(cap);
    }
}

/// At most a capacity's worth of pushes fill the slots from the current
/// index on, in order, and leave the others alone.
proof fn lemma_push_all_shape(r: RingView, ids: Seq<Seq<u8>>)
    requires
        r.wf(),
        r.slots.len() > 0,
        ids.len() <= r.slots.len(),
    ensures
        ({
            let q = push_all(r, ids);
            let cap = r.slots.len() as int;
            &&& q.wf()
            &&& q.slots.len() == cap
            &&& q.index == if r.index + ids.len() < cap {
                r.index + ids.len()
            } else {
                r.index + ids.len() - cap
            }
            &&& forall|p: int|
                0 <= p < cap ==> #[trigger] q.slots[p] == if ring_distance(p, r.index, cap) < ids.len() {
                    Some(ids[ring_distance(p, r.index, cap)])
                } else {
                    r.slots[p]
                }
        }),
    decreases ids.len(),
{
    let cap = r.slots.len() as int;
    if ids.len() > 0 {
        let pre = ids.drop_last();
        lemma_push_all_shape(r, pre);
        let q0 = push_all(r, pre);
        lemma_next_index(q0.index, cap);
        assert forall|p: int| 0 <= p < cap implies #[trigger] push_all(r, ids).slots[p] == if ring_distance(
            p,
            r.index,
            cap,
        ) < ids.len() {
            Some(ids[ring_distance(p, r.index, cap)])
        } else {
            r.slots[p]
        } by {
            assert(q0.slots[p] == if ring_distance(p, r.index, cap) < pre.len() {
                Some(pre[ring_distance(p, r.index, cap)])
            } else {
                r.slots[p]
            });
        }
    }
}

/// A pushed id is still remembered after fewer than a capacity's worth of
/// later pushes.
pub proof fn lemma_remembered_until_capacity(r: RingView, id: Seq<u8>, later: Seq<Seq<u8>>)
    requires
        r.wf(),
        r.slots.len() > 0,
        later.len() < r.slots.len(),
    ensures
        push_all(r.push(id), later).contains(id),
{
    let cap = r.slots.len() as int;
    let r1 = r.push(id);
    lemma_next_index(r.index, cap);
    lemma_push_all_shape(r1, later);
    assert(push_all(r1, later).slots[r.index] == Some(id));
}

/// Pushing `a` then `b` is pushing `a + b`.
pub proof fn lemma_push_all_concat(r: RingView, a: Seq<Seq<u8>>, b: Seq<Seq<u8>>)
    ensures
        push_all(push_all(r, a), b) == push_all(r, a + b),
    decreases b.len(),
{
    if b.len() == 0 {
        assert(a + b =~= a);
    } else {
        lemma_push_all_concat(r, a, b.drop_last());
        assert((a + b).drop_last() =~= a + b.drop_last());
        assert((a + b).last() == b.last());
    }
}

/// After a capacity's worth of pushes of other ids, an id is forgotten.
pub proof fn lemma_forgotten_after_capacity(r: RingView, id: Seq<u8>, later: Seq<Seq<u8>>)
    requires
        r.wf(),
        r.slots.len() > 0,
        later.len() >= r.slots.len(),
        forall|j: int| 0 <= j < later.len() ==> later[j] != id,
    ensures
        !push_all(r, later).contains(id),
{
    let cap = r.slots.len() as int;
    let k = later.len() - cap;
    let a = later.subrange(0, k);
    let b = later.subrange(k, later.len() as int);
    assert(a + b =~= later);
    lemma_push_all_concat(r, a, b);
    lemma_push_all_wf(r, a);
    let r1 = push_all(r, a);
    lemma_push_all_shape(r1, b);
    let q = push_all(r1, b);
    assert forall|p: int| 0 <= p < cap implies q.slots[p] != Some(id) by {
        assert(b[ring_distance(p, r1.index, cap)] != id);
    }
}

proof fn lemma_push_all_wf(r: RingView, ids: Seq<Seq<u8>>)
    requires
        r.wf(),
        r.slots.len() > 0,
    ensures
        push_all(r, ids).wf(),
        push_all(r, ids).slots.len() == r.slots.len(),
    decreases ids.len(),
{
    if ids.len() > 0 {
        lemma_push_all_wf(r, ids.drop_last());
        lemma_next_index(push_all(r, ids.drop_last()).index, r.slots.len() as int);
    }
}

} // verus!
