use vstd::prelude::*;

use crate::frame::{Fragment, FragmentView, PACKET_PART_SIZE};
use crate::net::{append_bytes, id_eq, Id};
use crate::packet::{deserialize_spec, Packet, PacketView};
use crate::ringbuffer::{RingView, Ringbuffer};

verus! {

/// Most packets that may be waiting for fragments at once; when a new packet
/// would exceed it, the one touched longest ago is dropped.
pub const MAX_PENDING: usize = 64;

/// How many completed packet ids are remembered to suppress duplicates.
pub const RECENT_CAPACITY: usize = 16;

/// The fragments received so far of one packet, one slot per sequence number.
#[derive(Clone, Debug)]
pub struct Entry {
    id: Id,
    slots: Vec<Vec<u8>>,
}

pub struct EntryView {
    pub id: Seq<u8>,
    pub slots: Seq<Seq<u8>>,
}

/// Joins fragments into packets and forgets nothing it recently delivered.
///
/// Pending packets are kept in the order they were last touched; a fragment
/// moves its packet to the back, and a new packet beyond `MAX_PENDING`
/// evicts the front one.
#[derive(Clone, Debug)]
pub struct Reassembler {
    entries: Vec<Entry>,
    recent: Ringbuffer,
}

pub struct ReassemblerView {
    pub entries: Seq<EntryView>,
    pub recent: RingView,
}

pub open spec fn slots_view(v: Seq<Vec<u8>>) -> Seq<Seq<u8>> {
    v.map_values(|b: Vec<u8>| b@)
}

impl View for Entry {
    type V = EntryView;

    closed spec fn view(&self) -> EntryView {
        EntryView { id: self.id@, slots: slots_view(self.slots@) }
    }
}

impl View for Reassembler {
    type V = ReassemblerView;

    closed spec fn view(&self) -> ReassemblerView {
        ReassemblerView { entries: self.entries@.map_values(|e: Entry| e@), recent: self.recent@ }
    }
}

pub open spec fn opt_packet_view(o: Option<Packet>) -> Option<PacketView> {
    match o {
        Some(p) => Some(p@),
        None => None,
    }
}

/// Every slot holds bytes.
pub open spec fn all_filled(slots: Seq<Seq<u8>>) -> bool {
    forall|i: int| 0 <= i < slots.len() ==> (#[trigger] slots[i]).len() > 0
}

pub open spec fn has_entry(es: Seq<EntryView>, id: Seq<u8>) -> bool {
    exists|k: int| 0 <= k < es.len() && (#[trigger] es[k]).id == id
}

pub open spec fn entry_index(es: Seq<EntryView>, id: Seq<u8>) -> int {
    choose|k: int| 0 <= k < es.len() && (#[trigger] es[k]).id == id
}

pub open spec fn empty_slots(n: nat) -> Seq<Seq<u8>> {
    Seq::new(n, |i: int| Seq::<u8>::empty())
}

impl EntryView {
    pub open spec fn wf(self) -> bool {
        &&& self.id.len() == 8
        &&& 1 <= self.slots.len() <= 256
        &&& forall|i: int| 0 <= i < self.slots.len() ==> (#[trigger] self.slots[i]).len() <= PACKET_PART_SIZE
    }
}

impl ReassemblerView {
    pub open spec fn wf(self) -> bool {
        &&& self.entries.len() <= MAX_PENDING
        &&& forall|k: int| 0 <= k < self.entries.len() ==> (#[trigger] self.entries[k]).wf()
        &&& forall|a: int, b: int|
            0 <= a < self.entries.len() && 0 <= b < self.entries.len() && a != b ==> (
            #[trigger] self.entries[a]).id != (#[trigger] self.entries[b]).id
        &&& self.recent.wf()
        &&& self.recent.slots.len() == RECENT_CAPACITY
    }

    /// The pending packets that remain when a fragment of `f.id` is stored:
    /// all others, less the oldest when a new packet would exceed the bound.
    pub open spec fn others(self, f: FragmentView) -> Seq<EntryView> {
        if has_entry(self.entries, f.id) {
            self.entries.remove(entry_index(self.entries, f.id))
        } else if self.entries.len() >= MAX_PENDING {
            self.entries.drop_first()
        } else {
            self.entries
        }
    }

    /// The slots of `f.id` once `f` is stored in them.
    pub open spec fn stored(self, f: FragmentView) -> Seq<Seq<u8>> {
        let slots = if has_entry(self.entries, f.id) {
            self.entries[entry_index(self.entries, f.id)].slots
        } else {
            empty_slots(f.total as nat + 1)
        };
        slots.update(f.seq as int, f.inner)
    }

    /// Whether fragment `f` is dropped without any effect: its packet was
    /// recently delivered, its sequence number exceeds its total, or a
    /// pending packet of the same id disagrees on the total.
    pub open spec fn ignores(self, f: FragmentView) -> bool {
        ||| self.recent.contains(f.id)
        ||| f.seq > f.total
        ||| (has_entry(self.entries, f.id) && self.entries[entry_index(self.entries, f.id)].slots.len()
            != f.total + 1)
    }

    /// The state after fragment `f` arrives, and the packet it completes.
    pub open spec fn accept(self, f: FragmentView) -> (ReassemblerView, Option<PacketView>) {
        if self.ignores(f) {
            (self, None)
        } else {
            let slots = self.stored(f);
            let others = self.others(f);
            let kept = ReassemblerView {
                entries: others.push(EntryView { id: f.id, slots }),
                recent: self.recent,
            };
            if all_filled(slots) {
                match deserialize_spec(f.tag, slots.flatten()) {
                    Some(p) => (ReassemblerView { entries: others, recent: self.recent.push(f.id) }, Some(p)),
                    None => (kept, None),
                }
            } else {
                (kept, None)
            }
        }
    }
}

/// A fragment as the wire can carry it.
pub open spec fn fragment_wf(f: FragmentView) -> bool {
    f.id.len() == 8 && f.inner.len() <= PACKET_PART_SIZE
}

fn flatten_slots(slots: &Vec<Vec<u8>>) -> (r: Vec<u8>)
    ensures
        r@ == slots_view(slots@).flatten(),
{
    let mut out: Vec<u8> = Vec::new();
    let mut i: usize = 0;
    while i < slots.len()
        invariant
            i <= slots@.len(),
            out@ == slots_view(slots@).subrange(0, i as int).flatten(),
        decreases slots@.len() - i,
    {
        proof {
            let v = slots_view(slots@);
            assert(v.subrange(0, i + 1) =~= v.subrange(0, i as int).push(v[i as int]));
            v.subrange(0, i as int).lemma_flatten_push(v[i as int]);
        }
        append_bytes(&mut out, slots[i].as_slice());
        i = i + 1;
    }
    assert(slots_view(slots@).subrange(0, slots@.len() as int) =~= slots_view(slots@));
    out
}

fn slots_filled(slots: &Vec<Vec<u8>>) -> (r: bool)
    ensures
        r == all_filled(slots_view(slots@)),
{
    let mut i: usize = 0;
    while i < slots.len()
        invariant
            i <= slots@.len(),
            forall|j: int| 0 <= j < i ==> (#[trigger] slots_view(slots@)[j]).len() > 0,
        decreases slots@.len() - i,
    {
        if slots[i].len() == 0 {
            assert(slots_view(slots@)[i as int].len() == 0);
            return false;
        }
        i = i + 1;
    }
    true
}

fn new_slots(n: usize) -> (r: Vec<Vec<u8>>)
    ensures
        slots_view(r@) == empty_slots(n as nat),
{
    let mut r: Vec<Vec<u8>> = Vec::new();
    let mut i: usize = 0;
    while i < n
        invariant
            i <= n,
            r@.len() == i,
            slots_view(r@) =~= empty_slots(i as nat),
        decreases n - i,
    {
        let ghost prev = r@;
        let v: Vec<u8> = Vec::new();
        assert(v@ =~= Seq::<u8>::empty());
        r.push(v);
        i = i + 1;
        assert(r@ == prev.push(v));
        assert forall|j: int| 0 <= j < i implies slots_view(r@)[j] == empty_slots(i as nat)[j] by {
            if j < i - 1 {
                assert(slots_view(prev)[j] == empty_slots((i - 1) as nat)[j]);
            }
        }
        assert(slots_view(r@) =~= empty_slots(i as nat));
    }
    r
}

impl Reassembler {
    /// An empty reassembler with a recency memory of `RECENT_CAPACITY` ids.
    pub fn new() -> (r: Reassembler)
        ensures
            r@.wf(),
            r@.entries.len() == 0,
            forall|i: int| 0 <= i < RECENT_CAPACITY ==> r@.recent.slots[i] is None,
    {
        let r = Reassembler { entries: Vec::new(), recent: Ringbuffer::with_capacity(RECENT_CAPACITY) };
        assert(r@.entries =~= Seq::<EntryView>::empty());
        r
    }

    fn find(&self, id: &Id) -> (r: Option<usize>)
        ensures
            r matches Some(k) ==> k < self@.entries.len() && self@.entries[k as int].id == id@,
            r is None ==> !has_entry(self@.entries, id@),
    {
        let mut k: usize = 0;
        while k < self.entries.len()
            invariant
                k <= self.entries@.len(),
                forall|j: int| 0 <= j < k ==> (#[trigger] self@.entries[j]).id != id@,
            decreases self.entries@.len() - k,
        {
            if id_eq(&self.entries[k].id, id) {
                return Some(k);
            }
            k = k + 1;
        }
        None
    }

    /// Takes in one fragment; returns the packet it completes, if any.
    pub fn accept(&mut self, f: Fragment) -> (r: Option<Packet>)
        requires
            old(self)@.wf(),
            fragment_wf(f@),
        ensures
            final(self)@.wf(),
            (final(self)@, opt_packet_view(r)) == old(self)@.accept(f@),
    {
        proof {
            lemma_accept_wf(self@, f@);
        }
        if self.recent.contains(&f.id) || f.seq > f.total {
            return None;
        }
        let ghost s = self@;
        let slots: Vec<Vec<u8>> = match self.find(&f.id) {
            Some(k) => {
                proof {
                    assert(s.entries[entry_index(s.entries, f.id@)].id == f.id@);
                    assert(entry_index(s.entries, f.id@) == k);
                }
                if self.entries[k].slots.len() != f.total as usize + 1 {
                    return None;
                }
                let e = self.entries.remove(k);
                assert(self@.entries =~= s.entries.remove(k as int));
                e.slots
            },
            None => {
                if self.entries.len() >= MAX_PENDING {
                    self.entries.remove(0);
                    assert(self@.entries =~= s.entries.drop_first());
                }
                new_slots(f.total as usize + 1)
            },
        };
        let mut slots = slots;
        let ghost before = slots_view(slots@);
        assert(self@.entries == s.others(f@));
        slots.set(f.seq as usize, f.inner);
        assert(slots_view(slots@) =~= before.update(f.seq as int, f@.inner));
        assert(slots_view(slots@) == s.stored(f@));
        if slots_filled(&slots) {
            let data = flatten_slots(&slots);
            match Packet::deserialize(f.tag, data.as_slice()) {
                Some(p) => {
                    self.recent.push(f.id);
                    assert(self@.recent == s.recent.push(f.id@));
                    return Some(p);
                },
                None => {},
            }
        }
        let ghost others = self@.entries;
        let e = Entry { id: f.id, slots };
        assert(e@ == EntryView { id: f@.id, slots: s.stored(f@) });
        self.entries.push(e);
        assert(self@.entries =~= others.push(e@));
        None
    }
}

/// Taking in a fragment keeps the reassembler well formed.
pub proof fn lemma_accept_wf(s: ReassemblerView, f: FragmentView)
    requires
        s.wf(),
        fragment_wf(f),
    ensures
        s.accept(f).0.wf(),
{
    if !s.ignores(f) {
        let others = s.others(f);
        let slots = s.stored(f);
        if has_entry(s.entries, f.id) {
            let k = entry_index(s.entries, f.id);
            assert(forall|j: int| 0 <= j < others.len() ==> #[trigger] others[j] == s.entries[if j < k { j } else { j + 1 }]);
            assert(s.entries[k].wf());
        } else if s.entries.len() >= MAX_PENDING {
            assert(forall|j: int| 0 <= j < others.len() ==> #[trigger] others[j] == s.entries[j + 1]);
        }
        let e = EntryView { id: f.id, slots };
        assert(e.wf());
        let pushed = others.push(e);
        assert(forall|j: int| 0 <= j < others.len() ==> (#[trigger] others[j]).id != f.id);
        assert(forall|j: int| 0 <= j < others.len() ==> #[trigger] pushed[j] == others[j]);
        crate::ringbuffer::lemma_push_remembers(s.recent, f.id);
    }
}

/// A fragment changes the recency memory only when it completes a packet,
/// and then by pushing that packet's id.
pub proof fn lemma_accept_recent(s: ReassemblerView, f: FragmentView)
    ensures
        s.accept(f).0.recent == if s.accept(f).1 is Some {
            s.recent.push(f.id)
        } else {
            s.recent
        },
{
}

} // verus!
