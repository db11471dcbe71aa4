//! What a receiver makes of the fragments of one packet, whatever the order
//! in which they arrive.

use vstd::prelude::*;

use crate::channel::{chunks_spec, fragments_spec, ChannelView};
use crate::frame::{FragmentView, PACKET_PART_SIZE};
use crate::packet::{deserialize_spec, lemma_packet_round_trip, PacketView};
use crate::reassembly::{
    all_filled, empty_slots, entry_index, fragment_wf, has_entry, lemma_accept_wf,
    ReassemblerView,
};
use crate::frame::parse_frame_spec;
use crate::ringbuffer::{
    lemma_forgotten_after_capacity, lemma_push_remembers, lemma_remembered_until_capacity, push_all,
    RingView,
};
use crate::reassembly::RECENT_CAPACITY;

verus! {

/// Delivers fragments one after another; the final state and the result of
/// each delivery.
pub open spec fn deliver(s: ReassemblerView, fs: Seq<FragmentView>) -> (
    ReassemblerView,
    Seq<Option<PacketView>>,
)
    decreases fs.len(),
{
    if fs.len() == 0 {
        (s, Seq::empty())
    } else {
        let (s1, rs) = deliver(s, fs.drop_last());
        let (s2, r) = s1.accept(fs.last());
        (s2, rs.push(r))
    }
}

/// `order` lists each of `0..n` exactly once.
pub open spec fn is_permutation(order: Seq<int>, n: int) -> bool {
    &&& order.len() == n
    &&& forall|j: int| 0 <= j < n ==> 0 <= #[trigger] order[j] < n
    &&& forall|a: int, b: int| 0 <= a < n && 0 <= b < n && a != b ==> order[a] != order[b]
    &&& forall|i: int| 0 <= i < n ==> #[trigger] order.contains(i)
}

/// The fragments `fr` rearranged by `order`.
pub open spec fn in_order(fr: Seq<FragmentView>, order: Seq<int>) -> Seq<FragmentView> {
    Seq::new(order.len(), |j: int| fr[order[j]])
}

/// The slots of a packet after the fragments at positions `order[..j]` came.
pub open spec fn partial_slots(c: Seq<Seq<u8>>, order: Seq<int>, j: int) -> Seq<Seq<u8>> {
    Seq::new(
        c.len(),
        |i: int|
            if order.subrange(0, j).contains(i) {
                c[i]
            } else {
                Seq::empty()
            },
    )
}

proof fn lemma_contains_extend(order: Seq<int>, j: int, i: int)
    requires
        0 <= j < order.len(),
    ensures
        order.subrange(0, j + 1).contains(i) <==> (order.subrange(0, j).contains(i) || order[j] == i),
{
    let a = order.subrange(0, j);
    let b = order.subrange(0, j + 1);
    if b.contains(i) {
        let x = choose|x: int| 0 <= x < b.len() && b[x] == i;
        if x < j {
            assert(a[x] == i);
        }
    }
    if a.contains(i) {
        let x = choose|x: int| 0 <= x < a.len() && a[x] == i;
        assert(b[x] == i);
    }
    if order[j] == i {
        assert(b[j] == i);
    }
}

/// Every chunk of a payload is non-empty and fits in one fragment.
pub proof fn lemma_chunks_wf(d: Seq<u8>)
    ensures
        chunks_spec(d).len() >= 1,
        forall|i: int|
            0 <= i < chunks_spec(d).len() ==> 0 < (#[trigger] chunks_spec(d)[i]).len() <= PACKET_PART_SIZE,
{
    if d.len() > 0 {
        assert forall|i: int| 0 <= i < chunks_spec(d).len() implies 0 < (
        #[trigger] chunks_spec(d)[i]).len() <= PACKET_PART_SIZE by {
            assert(241 * i < d.len());
        }
    }
}

/// Joining the chunks of a non-empty payload gives the payload.
pub proof fn lemma_chunks_join(d: Seq<u8>)
    requires
        d.len() > 0,
    ensures
        chunks_spec(d).flatten() == d,
{
    let c = chunks_spec(d);
    let n = c.len() as int;
    assert forall|k: int| 0 <= k <= n implies #[trigger] c.subrange(0, k).flatten() == d.subrange(
        0,
        if 241 * k <= d.len() {
            241 * k
        } else {
            d.len() as int
        },
    ) by {
        lemma_chunks_prefix(d, k);
    }
    assert(c.subrange(0, n) =~= c);
    assert(d.subrange(0, d.len() as int) =~= d);
}

proof fn lemma_chunks_prefix(d: Seq<u8>, k: int)
    requires
        d.len() > 0,
        0 <= k <= chunks_spec(d).len(),
    ensures
        chunks_spec(d).subrange(0, k).flatten() == d.subrange(
            0,
            if 241 * k <= d.len() {
                241 * k
            } else {
                d.len() as int
            },
        ),
    decreases k,
{
    let c = chunks_spec(d);
    if k == 0 {
        assert(c.subrange(0, 0) =~= Seq::<Seq<u8>>::empty());
        assert(d.subrange(0, 0) =~= Seq::<u8>::empty());
    } else {
        lemma_chunks_prefix(d, k - 1);
        assert(c.subrange(0, k) =~= c.subrange(0, k - 1).push(c[k - 1]));
        c.subrange(0, k - 1).lemma_flatten_push(c[k - 1]);
        assert(241 * (k - 1) < d.len());
        assert(d.subrange(
            0,
            if 241 * k <= d.len() {
                241 * k
            } else {
                d.len() as int
            },
        ) =~= d.subrange(0, 241 * (k - 1)) + c[k - 1]);
    }
}

/// The packet that a payload's own chunks decode to, joined in order.
proof fn lemma_joined_decodes(p: PacketView)
    requires
        p.wf(),
        p.body_decompresses(),
        ChannelView::fits(p.serialize()),
    ensures
        deserialize_spec(p.tag(), chunks_spec(p.serialize()).flatten()) == Some(p),
{
    let d = p.serialize();
    assert(d.len() <= 241 * 256);
    lemma_packet_round_trip(p);
    if d.len() > 0 {
        lemma_chunks_join(d);
    } else {
        assert(p is PresenceReq) by {
            match p {
                PacketView::Message { author, channel, message } => {
                    assert(d.len() >= 16);
                },
                PacketView::Presence(id, _, _) => {
                    assert(d.len() >= 9);
                },
                _ => {},
            }
        }
    }
}

/// The state after the first `j` fragments of a packet, taken in `order`:
/// its entry holds exactly the chunks that came, and its id is not yet
/// remembered as delivered.
pub open spec fn midway(s: ReassemblerView, id: Seq<u8>, c: Seq<Seq<u8>>, order: Seq<int>, j: int) -> bool {
    &&& s.wf()
    &&& !s.recent.contains(id)
    &&& has_entry(s.entries, id)
    &&& s.entries[entry_index(s.entries, id)].slots == partial_slots(c, order, j)
}

proof fn lemma_step(
    s: ReassemblerView,
    p: PacketView,
    id: Seq<u8>,
    order: Seq<int>,
    j: int,
)
    requires
        s.wf(),
        p.wf(),
        p.body_decompresses(),
        ChannelView::fits(p.serialize()),
        id.len() == 8,
        is_permutation(order, chunks_spec(p.serialize()).len() as int),
        0 <= j < order.len(),
        j == 0 ==> !s.recent.contains(id) && !has_entry(s.entries, id),
        j > 0 ==> midway(s, id, chunks_spec(p.serialize()), order, j),
    ensures
        ({
            let c = chunks_spec(p.serialize());
            let f = fragments_spec(p.tag(), id, p.serialize())[order[j]];
            let (s2, r) = s.accept(f);
            &&& s2.wf()
            &&& j + 1 < c.len() ==> r is None && midway(s2, id, c, order, j + 1)
            &&& j + 1 == c.len() ==> r == Some(p) && s2.recent.contains(id)
        }),
{
    let d = p.serialize();
    let c = chunks_spec(d);
    let n = c.len() as int;
    let fr = fragments_spec(p.tag(), id, d);
    let f = fr[order[j]];
    lemma_chunks_wf(d);
    assert(fragment_wf(f));
    lemma_accept_wf(s, f);
    assert(!s.ignores(f));
    let slots = s.stored(f);
    assert(f.seq as int == order[j]);
    assert(f.inner == c[order[j]]);
    let prior = if j == 0 {
        empty_slots(n as nat)
    } else {
        partial_slots(c, order, j)
    };
    assert(slots == prior.update(order[j], c[order[j]]));
    assert forall|i: int| 0 <= i < n implies #[trigger] slots[i] == partial_slots(c, order, j + 1)[i] by {
        lemma_contains_extend(order, j, i);
        if j == 0 {
            assert(!order.subrange(0, 0).contains(i));
        }
    }
    assert(slots =~= partial_slots(c, order, j + 1));
    let (s2, r) = s.accept(f);
    if j + 1 < n {
        let last = order[n - 1];
        assert(!order.subrange(0, j + 1).contains(last)) by {
            assert forall|x: int| 0 <= x < j + 1 implies #[trigger] order.subrange(0, j + 1)[x] != last by {
                assert(order[x] != order[n - 1]);
            }
        }
        assert(slots[last].len() == 0);
        assert(!all_filled(slots));
        let others = s.others(f);
        let e = crate::reassembly::EntryView { id, slots };
        assert(s2.entries == others.push(e));
        assert(s2.entries[s2.entries.len() - 1].id == id);
        assert(has_entry(s2.entries, id));
        assert(entry_index(s2.entries, id) == s2.entries.len() - 1);
    } else {
        assert(slots =~= c) by {
            assert forall|i: int| 0 <= i < n implies #[trigger] slots[i] == c[i] by {
                assert(order.contains(i));
                let jj = choose|jj: int| 0 <= jj < n && #[trigger] order[jj] == i;
                assert(order.subrange(0, j + 1)[jj] == i);
            }
        }
        assert(all_filled(slots));
        lemma_joined_decodes(p);
        lemma_push_remembers(s.recent, id);
    }
}

/// Fragments of a packet, delivered in any order to a receiver that neither
/// remembers nor holds its id, yield the packet exactly once: on the last
/// fragment, after which its id is remembered as delivered.
pub proof fn lemma_delivered_once(s: ReassemblerView, p: PacketView, id: Seq<u8>, order: Seq<int>)
    requires
        s.wf(),
        p.wf(),
        p.body_decompresses(),
        ChannelView::fits(p.serialize()),
        id.len() == 8,
        !s.recent.contains(id),
        !has_entry(s.entries, id),
        is_permutation(order, chunks_spec(p.serialize()).len() as int),
    ensures
        ({
            let fs = in_order(fragments_spec(p.tag(), id, p.serialize()), order);
            let (s2, rs) = deliver(s, fs);
            &&& s2.wf()
            &&& s2.recent.contains(id)
            &&& rs.len() == fs.len()
            &&& rs[rs.len() - 1] == Some(p)
            &&& forall|j: int| 0 <= j < rs.len() - 1 ==> rs[j] is None
        }),
{
    let d = p.serialize();
    let c = chunks_spec(d);
    let n = c.len() as int;
    let fs = in_order(fragments_spec(p.tag(), id, d), order);
    lemma_chunks_wf(d);
    lemma_delivered_prefix(s, p, id, order, n);
    assert(fs.subrange(0, n) =~= fs);
}

proof fn lemma_delivered_prefix(s: ReassemblerView, p: PacketView, id: Seq<u8>, order: Seq<int>, k: int)
    requires
        s.wf(),
        p.wf(),
        p.body_decompresses(),
        ChannelView::fits(p.serialize()),
        id.len() == 8,
        !s.recent.contains(id),
        !has_entry(s.entries, id),
        is_permutation(order, chunks_spec(p.serialize()).len() as int),
        1 <= k <= chunks_spec(p.serialize()).len(),
    ensures
        ({
            let c = chunks_spec(p.serialize());
            let fs = in_order(fragments_spec(p.tag(), id, p.serialize()), order);
            let (s2, rs) = deliver(s, fs.subrange(0, k));
            &&& s2.wf()
            &&& rs.len() == k
            &&& forall|j: int| 0 <= j < k - 1 ==> rs[j] is None
            &&& k < c.len() ==> rs[k - 1] is None && midway(s2, id, c, order, k)
            &&& k == c.len() ==> rs[k - 1] == Some(p) && s2.recent.contains(id)
        }),
    decreases k,
{
    let d = p.serialize();
    let c = chunks_spec(d);
    let fs = in_order(fragments_spec(p.tag(), id, d), order);
    let pre = fs.subrange(0, k);
    assert(pre.drop_last() =~= fs.subrange(0, k - 1));
    assert(pre.last() == fragments_spec(p.tag(), id, d)[order[k - 1]]);
    if k == 1 {
        assert(fs.subrange(0, 0) =~= Seq::<FragmentView>::empty());
        lemma_step(s, p, id, order, 0);
    } else {
        lemma_delivered_prefix(s, p, id, order, k - 1);
        let (s1, rs1) = deliver(s, fs.subrange(0, k - 1));
        lemma_step(s1, p, id, order, k - 1);
    }
    if k == c.len() {
        assert(fs.subrange(0, k) =~= fs);
    }
}

/// Once a packet's id is remembered as delivered, its fragments, delivered
/// again in any number and order, change nothing and yield nothing.
pub proof fn lemma_redelivery_ignored(s: ReassemblerView, id: Seq<u8>, fs: Seq<FragmentView>)
    requires
        s.wf(),
        s.recent.contains(id),
        forall|j: int| 0 <= j < fs.len() ==> (#[trigger] fs[j]).id == id,
    ensures
        deliver(s, fs).0 == s,
        forall|j: int| 0 <= j < fs.len() ==> (#[trigger] deliver(s, fs).1[j]) is None,
        deliver(s, fs).1.len() == fs.len(),
    decreases fs.len(),
{
    if fs.len() > 0 {
        lemma_redelivery_ignored(s, id, fs.drop_last());
    }
}

/// Whatever fragments arrive, colliding ids included, the reassembler stays
/// well formed, so that a later packet under an id it neither remembers nor
/// holds is still delivered.
pub proof fn lemma_deliver_wf(s: ReassemblerView, fs: Seq<FragmentView>)
    requires
        s.wf(),
        forall|j: int| 0 <= j < fs.len() ==> fragment_wf(#[trigger] fs[j]),
    ensures
        deliver(s, fs).0.wf(),
    decreases fs.len(),
{
    if fs.len() > 0 {
        lemma_deliver_wf(s, fs.drop_last());
        lemma_accept_wf(deliver(s, fs.drop_last()).0, fs.last());
    }
}

/// Hands received frames to a channel one after another; the final state and
/// the result of each.
pub open spec fn receive_all(c: ChannelView, frames: Seq<Seq<u8>>) -> (ChannelView, Seq<Option<PacketView>>)
    decreases frames.len(),
{
    if frames.len() == 0 {
        (c, Seq::empty())
    } else {
        let (c1, rs) = receive_all(c, frames.drop_last());
        let (c2, r) = c1.receive(frames.last());
        (c2, rs.push(r))
    }
}

/// The frames `fs` rearranged by `order`.
pub open spec fn frames_in_order(fs: Seq<Seq<u8>>, order: Seq<int>) -> Seq<Seq<u8>> {
    Seq::new(order.len(), |j: int| fs[order[j]])
}

proof fn lemma_receive_is_deliver(c: ChannelView, p: PacketView, id: Seq<u8>, order: Seq<int>, k: int)
    requires
        c.wf(),
        id.len() == 8,
        is_permutation(order, c.frames_for(p, id).len() as int),
        0 <= k <= order.len(),
    ensures
        ({
            let frames = frames_in_order(c.frames_for(p, id), order);
            let fs = in_order(fragments_spec(p.tag(), id, p.serialize()), order);
            let (c2, rs) = receive_all(c, frames.subrange(0, k));
            let (e2, ds) = deliver(c.engine, fs.subrange(0, k));
            c2 == (ChannelView { engine: e2, ..c }) && rs == ds
        }),
    decreases k,
{
    let frames = frames_in_order(c.frames_for(p, id), order);
    let fs = in_order(fragments_spec(p.tag(), id, p.serialize()), order);
    if k == 0 {
        assert(frames.subrange(0, 0) =~= Seq::<Seq<u8>>::empty());
        assert(fs.subrange(0, 0) =~= Seq::<FragmentView>::empty());
    } else {
        lemma_receive_is_deliver(c, p, id, order, k - 1);
        crate::channel::lemma_frames_parse(c, p, id);
        assert(frames.subrange(0, k).drop_last() =~= frames.subrange(0, k - 1));
        assert(fs.subrange(0, k).drop_last() =~= fs.subrange(0, k - 1));
        assert(frames.subrange(0, k).last() == c.frames_for(p, id)[order[k - 1]]);
        assert(fs.subrange(0, k).last() == fragments_spec(p.tag(), id, p.serialize())[order[k - 1]]);
    }
}

/// The frames a channel builds for a packet, received in any order by a
/// channel that neither remembers nor holds the packet's id, yield the packet
/// exactly once, on the last frame.
pub proof fn lemma_frames_delivered_once(c: ChannelView, p: PacketView, id: Seq<u8>, order: Seq<int>)
    requires
        c.wf(),
        p.wf(),
        p.body_decompresses(),
        ChannelView::fits(p.serialize()),
        id.len() == 8,
        !c.engine.recent.contains(id),
        !has_entry(c.engine.entries, id),
        is_permutation(order, c.frames_for(p, id).len() as int),
    ensures
        ({
            let frames = frames_in_order(c.frames_for(p, id), order);
            let (c2, rs) = receive_all(c, frames);
            &&& c2.wf()
            &&& c2.engine.recent.contains(id)
            &&& rs.len() == frames.len()
            &&& rs[rs.len() - 1] == Some(p)
            &&& forall|j: int| 0 <= j < rs.len() - 1 ==> rs[j] is None
        }),
{
    let frames = frames_in_order(c.frames_for(p, id), order);
    let n = order.len() as int;
    lemma_receive_is_deliver(c, p, id, order, n);
    lemma_delivered_once(c.engine, p, id, order);
    assert(frames.subrange(0, n) =~= frames);
    let fs = in_order(fragments_spec(p.tag(), id, p.serialize()), order);
    assert(fs.subrange(0, n) =~= fs);
}

/// The ids of the packets that the frames completed, in order: `rs` are the
/// results of receiving `frames`.
pub open spec fn delivered_ids(frames: Seq<Seq<u8>>, rs: Seq<Option<PacketView>>) -> Seq<Seq<u8>>
    decreases frames.len(),
{
    if frames.len() == 0 || rs.len() == 0 {
        Seq::empty()
    } else {
        let rest = delivered_ids(frames.drop_last(), rs.drop_last());
        match (rs.last(), parse_frame_spec(frames.last())) {
            (Some(_), Some(f)) => rest.push(f.id),
            _ => rest,
        }
    }
}

/// Receiving frames keeps the channel well formed and its address and
/// selector unchanged, and remembers exactly the ids of the packets
/// delivered, in order.
pub proof fn lemma_receive_all_recent(c: ChannelView, frames: Seq<Seq<u8>>)
    requires
        c.wf(),
    ensures
        ({
            let (c2, rs) = receive_all(c, frames);
            &&& c2.wf()
            &&& c2.mac == c.mac
            &&& c2.ether_type == c.ether_type
            &&& rs.len() == frames.len()
            &&& c2.engine.recent == push_all(c.engine.recent, delivered_ids(frames, rs))
        }),
    decreases frames.len(),
{
    if frames.len() > 0 {
        lemma_receive_all_recent(c, frames.drop_last());
        let (c1, rs1) = receive_all(c, frames.drop_last());
        let (c2, rs) = receive_all(c, frames);
        assert(rs.drop_last() =~= rs1);
        crate::channel::lemma_parsed_fragment_wf(frames.last());
        if let Some(f) = parse_frame_spec(frames.last()) {
            lemma_accept_wf(c1.engine, f);
            crate::reassembly::lemma_accept_recent(c1.engine, f);
        }
        let ids = delivered_ids(frames, rs);
        let ids1 = delivered_ids(frames.drop_last(), rs1);
        if rs.last() is Some {
            assert(ids.drop_last() =~= ids1);
        } else {
            assert(ids =~= ids1);
        }
    }
}

/// A packet's id, pushed by its delivery, is still remembered while fewer
/// than `RECENT_CAPACITY` further packets are delivered: any frame carrying
/// it then changes nothing and yields nothing.
pub proof fn lemma_redelivery_within_capacity(
    c: ChannelView,
    before: RingView,
    id: Seq<u8>,
    frames: Seq<Seq<u8>>,
    again: Seq<u8>,
)
    requires
        c.wf(),
        c.engine.recent == before.push(id),
        before.wf(),
        before.slots.len() == RECENT_CAPACITY,
        delivered_ids(frames, receive_all(c, frames).1).len() < RECENT_CAPACITY,
        parse_frame_spec(again) matches Some(f) && f.id == id,
    ensures
        receive_all(c, frames).0.engine.recent.contains(id),
        receive_all(c, frames).0.receive(again) == (receive_all(c, frames).0, None::<PacketView>),
{
    lemma_receive_all_recent(c, frames);
    lemma_remembered_until_capacity(before, id, delivered_ids(frames, receive_all(c, frames).1));
}

/// Once `RECENT_CAPACITY` packets under other ids were delivered, an id is
/// forgotten: a new packet under it, whose id no pending packet holds, is
/// delivered exactly once, in any order of its frames.
pub proof fn lemma_fresh_after_capacity(
    c: ChannelView,
    id: Seq<u8>,
    frames: Seq<Seq<u8>>,
    p: PacketView,
    order: Seq<int>,
)
    requires
        c.wf(),
        delivered_ids(frames, receive_all(c, frames).1).len() >= RECENT_CAPACITY,
        forall|j: int|
            0 <= j < delivered_ids(frames, receive_all(c, frames).1).len() ==> #[trigger] delivered_ids(
                frames,
                receive_all(c, frames).1,
            )[j] != id,
        !has_entry(receive_all(c, frames).0.engine.entries, id),
        p.wf(),
        p.body_decompresses(),
        ChannelView::fits(p.serialize()),
        id.len() == 8,
        is_permutation(order, receive_all(c, frames).0.frames_for(p, id).len() as int),
    ensures
        ({
            let c2 = receive_all(c, frames).0;
            let more = frames_in_order(c2.frames_for(p, id), order);
            let (c3, rs) = receive_all(c2, more);
            &&& rs.len() == more.len()
            &&& rs[rs.len() - 1] == Some(p)
            &&& forall|j: int| 0 <= j < rs.len() - 1 ==> rs[j] is None
        }),
{
    lemma_receive_all_recent(c, frames);
    lemma_forgotten_after_capacity(c.engine.recent, id, delivered_ids(frames, receive_all(c, frames).1));
    lemma_frames_delivered_once(receive_all(c, frames).0, p, id, order);
}

/// Whatever frames arrived before, colliding packet ids included, a packet
/// under an id that the channel neither remembers nor holds is delivered
/// exactly once, in any order of its frames.
pub proof fn lemma_delivery_after_any_traffic(
    c: ChannelView,
    frames: Seq<Seq<u8>>,
    p: PacketView,
    id: Seq<u8>,
    order: Seq<int>,
)
    requires
        c.wf(),
        !receive_all(c, frames).0.engine.recent.contains(id),
        !has_entry(receive_all(c, frames).0.engine.entries, id),
        p.wf(),
        p.body_decompresses(),
        ChannelView::fits(p.serialize()),
        id.len() == 8,
        is_permutation(order, receive_all(c, frames).0.frames_for(p, id).len() as int),
    ensures
        ({
            let c2 = receive_all(c, frames).0;
            let more = frames_in_order(c2.frames_for(p, id), order);
            let (c3, rs) = receive_all(c2, more);
            &&& c2.wf()
            &&& rs.len() == more.len()
            &&& rs[rs.len() - 1] == Some(p)
            &&& forall|j: int| 0 <= j < rs.len() - 1 ==> rs[j] is None
        }),
{
    lemma_receive_all_recent(c, frames);
    lemma_frames_delivered_once(receive_all(c, frames).0, p, id, order);
}

} // verus!
