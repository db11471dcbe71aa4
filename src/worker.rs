//! The decisions of the network worker: what to send and what to report for
//! each command, each received packet and each clock tick. The loop that
//! feeds it events and performs its actions lives outside the library.

use vstd::prelude::*;

use crate::channel::{Channel, ChannelView};
use crate::error::ArpchatError;
use crate::net::{id_eq, random_id, Id};
use crate::packet::{Packet, PacketView};
use vstd::utf8::encode_utf8;
use crate::ui::{KindView, NetCommand, UICommand, UICommandView, UpdatePresenceKind};

verus! {

/// Where the worker stands in joining the chat.
#[derive(Copy, Clone, Debug, PartialEq, Eq, Structural)]
pub enum NetThreadState {
    /// No username chosen yet.
    NeedsUsername,
    /// A presence request went out; heartbeats wait until the worker hears its
    /// own presence, which proves that its frames come back.
    NeedsInitialPresence,
    Ready,
}

/// The timer settings, in milliseconds.
#[derive(Copy, Clone, Debug)]
pub struct Timing {
    pub heartbeat_interval: u64,
    pub inactive_timeout: u64,
    pub offline_timeout: u64,
}

impl Timing {
    pub open spec fn wf(self) -> bool {
        self.heartbeat_interval < self.inactive_timeout < self.offline_timeout
    }

    /// One second between heartbeats, inactive after five, offline after
    /// fifteen.
    pub fn defaults() -> (r: Timing)
        ensures
            r.wf(),
            r.heartbeat_interval == 1000,
            r.inactive_timeout == 5000,
            r.offline_timeout == 15000,
    {
        Timing { heartbeat_interval: 1000, inactive_timeout: 5000, offline_timeout: 15000 }
    }
}

/// A known peer: its id, when it was last heard from, and its name.
#[derive(Clone, Debug, PartialEq, Eq)]
pub struct Peer {
    pub id: Id,
    pub last_heard: u64,
    pub username: String,
}

pub struct PeerView {
    pub id: Seq<u8>,
    pub last_heard: u64,
    pub username: Seq<char>,
}

impl View for Peer {
    type V = PeerView;

    open spec fn view(&self) -> PeerView {
        PeerView { id: self.id@, last_heard: self.last_heard, username: self.username@ }
    }
}

/// What one step of the worker asks for: packets to broadcast, events for the
/// user interface, and whether the worker stops afterwards.
pub struct Outcome {
    pub sends: Vec<Packet>,
    pub events: Vec<UICommand>,
    pub terminate: bool,
}

pub struct OutcomeView {
    pub sends: Seq<PacketView>,
    pub events: Seq<UICommandView>,
    pub terminate: bool,
}

impl View for Outcome {
    type V = OutcomeView;

    open spec fn view(&self) -> OutcomeView {
        OutcomeView {
            sends: self.sends@.map_values(|p: Packet| p@),
            events: self.events@.map_values(|e: UICommand| e@),
            terminate: self.terminate,
        }
    }
}

impl OutcomeView {
    pub open spec fn quiet(self) -> bool {
        self.sends.len() == 0 && self.events.len() == 0 && !self.terminate
    }
}

/// The network worker's own state; the link it sends and receives on is
/// driven from outside.
pub struct Worker {
    local_id: Id,
    username: String,
    state: NetThreadState,
    paused: bool,
    last_heartbeat: u64,
    online: Vec<Peer>,
    offline: Vec<Id>,
    timing: Timing,
    channel: Channel,
}

pub struct WorkerView {
    pub local_id: Seq<u8>,
    pub username: Seq<char>,
    pub state: NetThreadState,
    pub paused: bool,
    pub last_heartbeat: u64,
    pub online: Seq<PeerView>,
    pub offline: Seq<Seq<u8>>,
    pub timing: Timing,
    pub channel: ChannelView,
}

impl View for Worker {
    type V = WorkerView;

    closed spec fn view(&self) -> WorkerView {
        WorkerView {
            local_id: self.local_id@,
            username: self.username@,
            state: self.state,
            paused: self.paused,
            last_heartbeat: self.last_heartbeat,
            online: self.online@.map_values(|p: Peer| p@),
            offline: self.offline@.map_values(|i: Id| i@),
            timing: self.timing,
            channel: self.channel@,
        }
    }
}

/// Milliseconds from `t` to `now`; none if the clock reads earlier.
pub open spec fn elapsed(now: u64, t: u64) -> int {
    if now >= t {
        now - t
    } else {
        0
    }
}

pub open spec fn roster_has(online: Seq<PeerView>, id: Seq<u8>) -> bool {
    exists|k: int| 0 <= k < online.len() && (#[trigger] online[k]).id == id
}

pub open spec fn roster_index(online: Seq<PeerView>, id: Seq<u8>) -> int {
    choose|k: int| 0 <= k < online.len() && (#[trigger] online[k]).id == id
}

pub open spec fn offline_has(offline: Seq<Seq<u8>>, id: Seq<u8>) -> bool {
    exists|k: int| 0 <= k < offline.len() && offline[k] == id
}

pub open spec fn offline_index(offline: Seq<Seq<u8>>, id: Seq<u8>) -> int {
    choose|k: int| 0 <= k < offline.len() && offline[k] == id
}

/// The name under which a message's author is shown.
pub open spec fn name_of(online: Seq<PeerView>, id: Seq<u8>) -> Seq<char> {
    if roster_has(online, id) {
        online[roster_index(online, id)].username
    } else {
        "unknown"@
    }
}

/// Whether bytes `n` occur in bytes `h`.
pub open spec fn mentions(h: Seq<u8>, n: Seq<u8>) -> bool {
    exists|i: int| 0 <= i <= h.len() - n.len() && #[trigger] h.subrange(i, i + n.len()) == n
}

/// The roster after a presence from `p.id`.
pub open spec fn upsert(online: Seq<PeerView>, p: PeerView) -> Seq<PeerView> {
    if roster_has(online, p.id) {
        online.update(roster_index(online, p.id), p)
    } else {
        online.push(p)
    }
}

/// The offline set without `id`.
pub open spec fn offline_without(offline: Seq<Seq<u8>>, id: Seq<u8>) -> Seq<Seq<u8>> {
    if offline_has(offline, id) {
        offline.remove(offline_index(offline, id))
    } else {
        offline
    }
}

/// Why a presence from `id` under `name` is reported.
pub open spec fn presence_kind(w: WorkerView, id: Seq<u8>, is_join: bool, name: Seq<char>) -> KindView {
    if roster_has(w.online, id) {
        let former = w.online[roster_index(w.online, id)].username;
        if former != name {
            KindView::UsernameChange(former)
        } else {
            KindView::Boring
        }
    } else if is_join || offline_has(w.offline, id) {
        KindView::JoinOrReconnect
    } else {
        KindView::Boring
    }
}

/// The events a heartbeat tick reports for the peers of `online`, in order:
/// removal of those silent longer than the offline timeout, an inactive
/// update for those silent longer than the inactive timeout.
pub open spec fn tick_events(online: Seq<PeerView>, now: u64, t: Timing) -> Seq<UICommandView>
    decreases online.len(),
{
    if online.len() == 0 {
        Seq::empty()
    } else {
        let p = online.last();
        let rest = tick_events(online.drop_last(), now, t);
        if elapsed(now, p.last_heard) > t.offline_timeout {
            rest.push(UICommandView::RemovePresence(p.id, p.username))
        } else if elapsed(now, p.last_heard) > t.inactive_timeout {
            rest.push(UICommandView::PresenceUpdate(p.id, p.username, true, KindView::Boring))
        } else {
            rest
        }
    }
}

/// The peers a heartbeat tick keeps.
pub open spec fn tick_kept(online: Seq<PeerView>, now: u64, t: Timing) -> Seq<PeerView>
    decreases online.len(),
{
    if online.len() == 0 {
        Seq::empty()
    } else {
        let p = online.last();
        let rest = tick_kept(online.drop_last(), now, t);
        if elapsed(now, p.last_heard) > t.offline_timeout {
            rest
        } else {
            rest.push(p)
        }
    }
}

/// The offline set after a heartbeat tick: the ids of removed peers join it.
pub open spec fn tick_offline(offline: Seq<Seq<u8>>, online: Seq<PeerView>, now: u64, t: Timing) -> Seq<Seq<u8>>
    decreases online.len(),
{
    if online.len() == 0 {
        offline
    } else {
        let p = online.last();
        let rest = tick_offline(offline, online.drop_last(), now, t);
        if elapsed(now, p.last_heard) > t.offline_timeout && !offline_has(rest, p.id) {
            rest.push(p.id)
        } else {
            rest
        }
    }
}

/// Whether a tick at `now` is a heartbeat.
pub open spec fn heartbeat_due(w: WorkerView, now: u64) -> bool {
    elapsed(now, w.last_heartbeat) > w.timing.heartbeat_interval && w.state == NetThreadState::Ready
}

/// What acting on packet `p` at time `now` does: `w` is the state before,
/// `n` the state after, `out` what the worker asks for.
pub open spec fn packet_effect(w: WorkerView, n: WorkerView, p: PacketView, now: u64, out: OutcomeView) -> bool {
    match p {
        PacketView::Message { author, channel, message } => n == w
            && out.sends.len() == 0 && out.events =~= (if author != w.local_id
            && mentions(encode_utf8(message), encode_utf8(w.username)) {
            seq![UICommandView::AlertUser]
        } else {
            Seq::empty()
        }).push(
            UICommandView::NewMessage(
                author,
                name_of(w.online, author),
                channel,
                message,
                false,
            ),
        ),
        PacketView::PresenceReq => n == w && out.events.len() == 0
            && out.sends =~= seq![
            PacketView::Presence(
                w.local_id,
                w.state == NetThreadState::NeedsInitialPresence,
                w.username,
            ),
        ],
        PacketView::Presence(pid, is_join, name) => n == (WorkerView {
            online: upsert(w.online, PeerView { id: pid, last_heard: now, username: name }),
            offline: offline_without(w.offline, pid),
            state: if pid == w.local_id {
                NetThreadState::Ready
            } else {
                w.state
            },
            ..w
        }) && out.sends.len() == 0 && out.events =~= seq![
            UICommandView::PresenceUpdate(
                pid,
                name,
                false,
                presence_kind(w, pid, is_join, name),
            ),
        ],
        PacketView::Disconnect(pid) => out.sends.len() == 0 && if roster_has(
            w.online,
            pid,
        ) {
            n == (WorkerView {
                online: w.online.remove(roster_index(w.online, pid)),
                ..w
            }) && out.events =~= seq![
                UICommandView::RemovePresence(
                    pid,
                    w.online[roster_index(w.online, pid)].username,
                ),
            ]
        } else {
            n == w && out.events.len() == 0
        },
        PacketView::Reaction(..) => n == w && out.quiet(),
    }
}

impl WorkerView {
    pub open spec fn wf(self) -> bool {
        &&& self.local_id.len() == 8
        &&& self.timing.wf()
        &&& self.channel.wf()
        &&& forall|k: int| 0 <= k < self.online.len() ==> (#[trigger] self.online[k]).id.len() == 8
        &&& forall|a: int, b: int|
            0 <= a < self.online.len() && 0 <= b < self.online.len() && a != b ==> (
            #[trigger] self.online[a]).id != (#[trigger] self.online[b]).id
        &&& forall|a: int, b: int|
            0 <= a < self.offline.len() && 0 <= b < self.offline.len() && a != b ==> (
            #[trigger] self.offline[a]) != (#[trigger] self.offline[b])
    }
}

/// Whether bytes `n` occur in bytes `h`.
pub fn contains_bytes(h: &[u8], n: &[u8]) -> (r: bool)
    ensures
        r == mentions(h@, n@),
{
    if n.len() > h.len() {
        return false;
    }
    if n.len() == 0 {
        assert(h@.subrange(0, 0 + n@.len() as int) =~= n@);
        return true;
    }
    let end = h.len() - n.len() + 1;
    let mut i: usize = 0;
    while i < end
        invariant
            end == h@.len() - n@.len() + 1,
            1 <= n@.len() <= h@.len(),
            i <= end,
            forall|k: int| 0 <= k < i ==> #[trigger] h@.subrange(k, k + n@.len()) != n@,
        decreases end - i,
    {
        let mut j: usize = 0;
        let mut same = true;
        assert(i + n@.len() <= h.len());
        while j < n.len()
            invariant
                i < end,
                h@.len() == h.len(),
                end == h@.len() - n@.len() + 1,
                1 <= n@.len() <= h@.len(),
                j <= n@.len(),
                same == (forall|x: int| 0 <= x < j ==> h@[i + x] == n@[x]),
            decreases n@.len() - j,
        {
            if h[i + j] != n[j] {
                same = false;
            }
            j = j + 1;
        }
        if same {
            assert(h@.subrange(i as int, i + n@.len()) =~= n@);
            return true;
        }
        assert(h@.subrange(i as int, i + n@.len()) != n@) by {
            let x = choose|x: int| 0 <= x < n@.len() && h@[i + x] != n@[x];
            assert(h@.subrange(i as int, i + n@.len())[x] == h@[i + x]);
        }
        i = i + 1;
    }
    false
}

impl Worker {
    /// A worker for peer `local_id` on `channel`, its clock reading `now`.
    pub fn new(local_id: Id, channel: Channel, timing: Timing, now: u64) -> (r: Worker)
        requires
            channel@.wf(),
            timing.wf(),
        ensures
            r@.wf(),
            r@.local_id == local_id@,
            r@.username.len() == 0,
            r@.state == NetThreadState::NeedsUsername,
            !r@.paused,
            r@.last_heartbeat == now,
            r@.online.len() == 0,
            r@.offline.len() == 0,
            r@.timing == timing,
            r@.channel == channel@,
    {
        let r = Worker {
            local_id,
            username: String::new(),
            state: NetThreadState::NeedsUsername,
            paused: false,
            last_heartbeat: now,
            online: Vec::new(),
            offline: Vec::new(),
            timing,
            channel,
        };
        assert(r@.online =~= Seq::<PeerView>::empty());
        assert(r@.offline =~= Seq::<Seq<u8>>::empty());
        r
    }

    /// A worker under a freshly drawn peer id.
    pub fn start(channel: Channel, timing: Timing, now: u64) -> (r: Worker)
        requires
            channel@.wf(),
            timing.wf(),
        ensures
            r@.wf(),
            r@.username.len() == 0,
            r@.state == NetThreadState::NeedsUsername,
            !r@.paused,
            r@.last_heartbeat == now,
            r@.online.len() == 0,
            r@.offline.len() == 0,
            r@.timing == timing,
            r@.channel == channel@,
    {
        Worker::new(random_id(), channel, timing, now)
    }

    pub fn local_id(&self) -> (r: Id)
        ensures
            r@ == self@.local_id,
    {
        self.local_id
    }

    pub fn state(&self) -> (r: NetThreadState)
        ensures
            r == self@.state,
    {
        self.state
    }

    pub fn username(&self) -> (r: &String)
        ensures
            r@ == self@.username,
    {
        &self.username
    }

    pub fn is_paused(&self) -> (r: bool)
        ensures
            r == self@.paused,
    {
        self.paused
    }

    /// The known peers, in the order they were first heard.
    pub fn online(&self) -> (r: &Vec<Peer>)
        ensures
            r@.map_values(|p: Peer| p@) == self@.online,
    {
        &self.online
    }

    fn find_peer(&self, id: &Id) -> (r: Option<usize>)
        ensures
            r matches Some(k) ==> k < self@.online.len() && self@.online[k as int].id == id@,
            r is None ==> !roster_has(self@.online, id@),
    {
        let mut k: usize = 0;
        while k < self.online.len()
            invariant
                k <= self.online@.len(),
                forall|j: int| 0 <= j < k ==> (#[trigger] self@.online[j]).id != id@,
            decreases self.online@.len() - k,
        {
            if id_eq(&self.online[k].id, id) {
                return Some(k);
            }
            k = k + 1;
        }
        None
    }

    fn find_offline(&self, id: &Id) -> (r: Option<usize>)
        ensures
            r matches Some(k) ==> k < self@.offline.len() && self@.offline[k as int] == id@,
            r is None ==> !offline_has(self@.offline, id@),
    {
        let mut k: usize = 0;
        while k < self.offline.len()
            invariant
                k <= self.offline@.len(),
                forall|j: int| 0 <= j < k ==> self@.offline[j] != id@,
            decreases self.offline@.len() - k,
        {
            if id_eq(&self.offline[k], id) {
                return Some(k);
            }
            k = k + 1;
        }
        None
    }

    /// The frames that carry `packet` on this worker's channel.
    pub fn frames(&self, packet: &Packet) -> (r: Result<Vec<Vec<u8>>, ArpchatError>)
        requires
            self@.wf(),
        ensures
            ChannelView::fits(packet@.serialize()) ==> (r matches Ok(fs) && exists|id: Seq<u8>|
                id.len() == 8 && crate::channel::frames_view(fs@) == #[trigger] self@.channel.frames_for(packet@, id)),
            !ChannelView::fits(packet@.serialize()) ==> r matches Err(ArpchatError::PacketTooLong),
    {
        self.channel.send(packet)
    }

    /// Acts on a command of the user interface.
    pub fn on_command(&mut self, cmd: NetCommand) -> (r: Outcome)
        requires
            old(self)@.wf(),
        ensures
            final(self)@.wf(),
            match cmd {
                NetCommand::SetInterface(_) => final(self)@ == old(self)@ && r@.sends.len() == 0
                    && r@.events == seq![UICommandView::Error(ArpchatError::InterfaceAlreadySet)]
                    && r@.terminate,
                NetCommand::SetEtherType(e) => final(self)@ == (WorkerView {
                    channel: ChannelView { ether_type: e, ..old(self)@.channel },
                    ..old(self)@
                }) && r@.quiet(),
                NetCommand::UpdateUsername(name) => r@.events.len() == 0 && !r@.terminate
                    && if old(self)@.state == NetThreadState::NeedsUsername {
                    final(self)@ == (WorkerView {
                        username: name@,
                        state: NetThreadState::NeedsInitialPresence,
                        ..old(self)@
                    }) && r@.sends == seq![PacketView::PresenceReq]
                } else {
                    final(self)@ == (WorkerView { username: name@, ..old(self)@ }) && r@.sends.len()
                        == 0
                },
                NetCommand::SendMessage(channel, text) => final(self)@ == old(self)@
                    && r@.sends == seq![
                    PacketView::Message {
                        author: old(self)@.local_id,
                        channel: channel@,
                        message: text@,
                    },
                ] && r@.events == seq![
                    UICommandView::NewMessage(
                        old(self)@.local_id,
                        old(self)@.username,
                        channel@,
                        text@,
                        true,
                    ),
                ] && !r@.terminate,
                NetCommand::Reaction(id, c) => final(self)@ == old(self)@ && r@.sends == seq![
                    PacketView::Reaction(id@, c),
                ] && r@.events.len() == 0 && !r@.terminate,
                NetCommand::PauseHeartbeat(p) => final(self)@ == (WorkerView {
                    paused: p,
                    ..old(self)@
                }) && r@.quiet(),
                NetCommand::Terminate => final(self)@ == old(self)@ && r@.sends == seq![
                    PacketView::Disconnect(old(self)@.local_id),
                ] && r@.events.len() == 0 && r@.terminate,
            },
    {
        let mut sends: Vec<Packet> = Vec::new();
        let mut events: Vec<UICommand> = Vec::new();
        let mut terminate = false;
        match cmd {
            NetCommand::SetInterface(_) => {
                events.push(UICommand::Error(ArpchatError::InterfaceAlreadySet));
                terminate = true;
            },
            NetCommand::SetEtherType(e) => {
                self.channel.set_ether_type(e);
            },
            NetCommand::UpdateUsername(name) => {
                self.username = name;
                if self.state == NetThreadState::NeedsUsername {
                    sends.push(Packet::PresenceReq);
                    self.state = NetThreadState::NeedsInitialPresence;
                }
            },
            NetCommand::SendMessage(channel, text) => {
                events.push(
                    UICommand::NewMessage(
                        self.local_id,
                        self.username.clone(),
                        channel.clone(),
                        text.clone(),
                        true,
                    ),
                );
                sends.push(Packet::Message { author: self.local_id, channel, message: text });
            },
            NetCommand::Reaction(id, c) => {
                sends.push(Packet::Reaction(id, c));
            },
            NetCommand::PauseHeartbeat(p) => {
                self.paused = p;
            },
            NetCommand::Terminate => {
                sends.push(Packet::Disconnect(self.local_id));
                terminate = true;
            },
        }
        let r = Outcome { sends, events, terminate };
        assert(r@.sends =~= sends@.map_values(|p: Packet| p@));
        r
    }

    /// Acts on a packet received at time `now`.
    pub fn on_packet(&mut self, p: Packet, now: u64) -> (r: Outcome)
        requires
            old(self)@.wf(),
        ensures
            final(self)@.wf(),
            !r@.terminate,
            packet_effect(old(self)@, final(self)@, p@, now, r@),
    {
        let ghost w = self@;
        let mut sends: Vec<Packet> = Vec::new();
        let mut events: Vec<UICommand> = Vec::new();
        match p {
            Packet::Message { author, channel, message } => {
                let name = match self.find_peer(&author) {
                    Some(k) => {
                        proof {
                            assert(roster_index(w.online, author@) == k);
                        }
                        self.online[k].username.clone()
                    },
                    None => String::from_str("unknown"),
                };
                if !id_eq(&author, &self.local_id) && contains_bytes(
                    message.as_str().as_bytes(),
                    self.username.as_str().as_bytes(),
                ) {
                    events.push(UICommand::AlertUser);
                }
                events.push(UICommand::NewMessage(author, name, channel, message, false));
            },
            Packet::PresenceReq => {
                let joining = self.state == NetThreadState::NeedsInitialPresence;
                sends.push(Packet::Presence(self.local_id, joining, self.username.clone()));
            },
            Packet::Presence(pid, is_join, name) => {
                let was_offline = match self.find_offline(&pid) {
                    Some(j) => {
                        proof {
                            assert(offline_index(w.offline, pid@) == j);
                        }
                        self.offline.remove(j);
                        assert(self@.offline =~= w.offline.remove(j as int));
                        true
                    },
                    None => false,
                };
                let kind = match self.find_peer(&pid) {
                    Some(k) => {
                        proof {
                            assert(roster_index(w.online, pid@) == k);
                        }
                        let former = self.online[k].username.clone();
                        let same = former == name;
                        self.online.set(k, Peer { id: pid, last_heard: now, username: name.clone() });
                        if same {
                            UpdatePresenceKind::Boring
                        } else {
                            UpdatePresenceKind::UsernameChange(former)
                        }
                    },
                    None => {
                        self.online.push(Peer { id: pid, last_heard: now, username: name.clone() });
                        if is_join || was_offline {
                            UpdatePresenceKind::JoinOrReconnect
                        } else {
                            UpdatePresenceKind::Boring
                        }
                    },
                };
                assert(self@.online =~= upsert(w.online, PeerView { id: pid@, last_heard: now, username: name@ }));
                if id_eq(&pid, &self.local_id) {
                    self.state = NetThreadState::Ready;
                }
                events.push(UICommand::PresenceUpdate(pid, name, false, kind));
            },
            Packet::Disconnect(pid) => {
                match self.find_peer(&pid) {
                    Some(k) => {
                        proof {
                            assert(roster_index(w.online, pid@) == k);
                        }
                        let peer = self.online.remove(k);
                        assert(self@.online =~= w.online.remove(k as int));
                        events.push(UICommand::RemovePresence(pid, peer.username));
                    },
                    None => {},
                }
            },
            Packet::Reaction(_, _) => {},
        }
        let r = Outcome { sends, events, terminate: false };
        assert(r@.sends =~= sends@.map_values(|p: Packet| p@));
        assert(r@.events =~= events@.map_values(|e: UICommand| e@));
        r
    }

    /// Acts on the clock reading `now`: when the heartbeat interval has
    /// passed and the worker is ready, broadcasts its presence unless paused,
    /// drops the peers silent beyond the offline timeout and reports those
    /// silent beyond the inactive timeout.
    pub fn on_tick(&mut self, now: u64) -> (r: Outcome)
        requires
            old(self)@.wf(),
        ensures
            final(self)@.wf(),
            !r@.terminate,
            !heartbeat_due(old(self)@, now) ==> final(self)@ == old(self)@ && r@.quiet(),
            heartbeat_due(old(self)@, now) ==> final(self)@ == (WorkerView {
                last_heartbeat: now,
                online: tick_kept(old(self)@.online, now, old(self)@.timing),
                offline: tick_offline(old(self)@.offline, old(self)@.online, now, old(self)@.timing),
                ..old(self)@
            }),
            final(self)@ == tick_next(old(self)@, now),
            r@.events == tick_reports(old(self)@, now),
            heartbeat_due(old(self)@, now) ==> r@.events == tick_events(
                old(self)@.online,
                now,
                old(self)@.timing,
            ),
            heartbeat_due(old(self)@, now) ==> r@.sends == if old(self)@.paused {
                Seq::empty()
            } else {
                seq![PacketView::Presence(old(self)@.local_id, false, old(self)@.username)]
            },
    {
        let ghost w = self@;
        let since: u64 = if now >= self.last_heartbeat {
            now - self.last_heartbeat
        } else {
            0
        };
        if !(since > self.timing.heartbeat_interval && self.state == NetThreadState::Ready) {
            let r = Outcome { sends: Vec::new(), events: Vec::new(), terminate: false };
            assert(r@.sends =~= Seq::<PacketView>::empty());
            assert(r@.events =~= Seq::<UICommandView>::empty());
            return r;
        }
        let mut sends: Vec<Packet> = Vec::new();
        if !self.paused {
            sends.push(Packet::Presence(self.local_id, false, self.username.clone()));
        }
        let mut kept: Vec<Peer> = Vec::new();
        let mut events: Vec<UICommand> = Vec::new();
        let n = self.online.len();
        let mut i: usize = 0;
        while i < n
            invariant
                w.wf(),
                n == w.online.len(),
                i <= n,
                self@ == (WorkerView { offline: self@.offline, ..w }),
                kept@.map_values(|p: Peer| p@) == tick_kept(w.online.subrange(0, i as int), now, w.timing),
                events@.map_values(|e: UICommand| e@) == tick_events(w.online.subrange(0, i as int), now, w.timing),
                self@.offline == tick_offline(w.offline, w.online.subrange(0, i as int), now, w.timing),
                forall|a: int| 0 <= a < kept@.len() ==> exists|b: int| 0 <= b < i && (#[trigger] kept@[a])@ == w.online[b],
                forall|a: int, b: int| 0 <= a < kept@.len() && 0 <= b < kept@.len() && a != b ==> (#[trigger] kept@[a]).id@ != (#[trigger] kept@[b]).id@,
                forall|a: int, b: int|
                    0 <= a < self@.offline.len() && 0 <= b < self@.offline.len() && a != b ==> (
                    #[trigger] self@.offline[a]) != (#[trigger] self@.offline[b]),
            decreases n - i,
        {
            proof {
                assert(w.online.subrange(0, i + 1).drop_last() =~= w.online.subrange(0, i as int));
                assert(w.online.subrange(0, i + 1).last() == w.online[i as int]);
            }
            let ghost kept0 = kept@;
            let ghost events0 = events@;
            let heard = self.online[i].last_heard;
            let age: u64 = if now >= heard {
                now - heard
            } else {
                0
            };
            let id = self.online[i].id;
            if age > self.timing.offline_timeout {
                if self.find_offline(&id).is_none() {
                    let ghost off0 = self@.offline;
                    assert(forall|k: int| 0 <= k < off0.len() ==> off0[k] != id@);
                    self.offline.push(id);
                    assert(self@.offline =~= off0.push(id@));
                }
                events.push(UICommand::RemovePresence(id, self.online[i].username.clone()));
            } else {
                if age > self.timing.inactive_timeout {
                    events.push(
                        UICommand::PresenceUpdate(
                            id,
                            self.online[i].username.clone(),
                            true,
                            UpdatePresenceKind::Boring,
                        ),
                    );
                }
                let p = Peer { id, last_heard: heard, username: self.online[i].username.clone() };
                assert forall|a: int| 0 <= a < kept@.len() implies (#[trigger] kept@[a]).id@ != p.id@ by {
                    let b = choose|b: int| 0 <= b < i && kept@[a]@ == w.online[b];
                    assert(w.online[b].id != w.online[i as int].id);
                }
                kept.push(p);
                assert(kept@ == kept0.push(p));
            }
            i = i + 1;
            assert(kept@.map_values(|p: Peer| p@) =~= tick_kept(w.online.subrange(0, i as int), now, w.timing));
            assert(events@.map_values(|e: UICommand| e@) =~= tick_events(w.online.subrange(0, i as int), now, w.timing));
        }
        proof {
            assert(w.online.subrange(0, n as int) =~= w.online);
        }
        self.online = kept;
        self.last_heartbeat = now;
        let r = Outcome { sends, events, terminate: false };
        assert(r@.sends =~= (if w.paused {
            Seq::empty()
        } else {
            seq![PacketView::Presence(w.local_id, false, w.username)]
        }));
        r
    }

    /// Takes in a frame received at time `now`; a packet it completes is
    /// acted on as `on_packet` does.
    pub fn on_frame(&mut self, frame: &[u8], now: u64) -> (r: Outcome)
        requires
            old(self)@.wf(),
        ensures
            final(self)@.wf(),
            final(self)@.channel == old(self)@.channel.receive(frame@).0,
            old(self)@.channel.receive(frame@).1 is None ==> r@.quiet() && final(self)@ == (
            WorkerView { channel: old(self)@.channel.receive(frame@).0, ..old(self)@ }),
            old(self)@.channel.receive(frame@).1 matches Some(p) ==> packet_effect(
                WorkerView { channel: old(self)@.channel.receive(frame@).0, ..old(self)@ },
                final(self)@,
                p,
                now,
                r@,
            ),
    {
        match self.channel.try_recv(frame) {
            Some(p) => self.on_packet(p, now),
            None => Outcome { sends: Vec::new(), events: Vec::new(), terminate: false },
        }
    }
}

/// At a heartbeat, a peer silent beyond the offline timeout is reported
/// removed, and one silent beyond the inactive timeout but not the offline
/// one is reported inactive.
pub proof fn lemma_silent_peer_reported(online: Seq<PeerView>, now: u64, t: Timing, k: int)
    requires
        0 <= k < online.len(),
    ensures
        elapsed(now, online[k].last_heard) > t.offline_timeout ==> tick_events(online, now, t).contains(
            UICommandView::RemovePresence(online[k].id, online[k].username),
        ),
        t.inactive_timeout < elapsed(now, online[k].last_heard) <= t.offline_timeout ==> tick_events(
            online,
            now,
            t,
        ).contains(UICommandView::PresenceUpdate(online[k].id, online[k].username, true, KindView::Boring)),
    decreases online.len(),
{
    let ev = tick_events(online, now, t);
    let rest = tick_events(online.drop_last(), now, t);
    if k == online.len() - 1 {
        if elapsed(now, online[k].last_heard) > t.inactive_timeout {
            assert(ev[ev.len() - 1] == ev.last());
        }
    } else {
        lemma_silent_peer_reported(online.drop_last(), now, t, k);
        assert(online.drop_last()[k] == online[k]);
        assert(forall|x: int| 0 <= x < rest.len() ==> ev[x] == rest[x]);
        if elapsed(now, online[k].last_heard) > t.inactive_timeout {
            let x = choose|x: int| 0 <= x < rest.len() && rest[x] == (if elapsed(now, online[k].last_heard) > t.offline_timeout {
                UICommandView::RemovePresence(online[k].id, online[k].username)
            } else {
                UICommandView::PresenceUpdate(online[k].id, online[k].username, true, KindView::Boring)
            });
            assert(ev[x] == rest[x]);
        }
    }
}

/// The state after a clock tick at `now`, as `on_tick` leaves it.
pub open spec fn tick_next(w: WorkerView, now: u64) -> WorkerView {
    if heartbeat_due(w, now) {
        WorkerView {
            last_heartbeat: now,
            online: tick_kept(w.online, now, w.timing),
            offline: tick_offline(w.offline, w.online, now, w.timing),
            ..w
        }
    } else {
        w
    }
}

/// The events of a clock tick at `now`, as `on_tick` reports them.
pub open spec fn tick_reports(w: WorkerView, now: u64) -> Seq<UICommandView> {
    if heartbeat_due(w, now) {
        tick_events(w.online, now, w.timing)
    } else {
        Seq::empty()
    }
}

/// The states after ticks at the clock readings `ts`, one after another.
pub open spec fn run_ticks(w: WorkerView, ts: Seq<u64>) -> WorkerView
    decreases ts.len(),
{
    if ts.len() == 0 {
        w
    } else {
        tick_next(run_ticks(w, ts.drop_last()), ts.last())
    }
}

/// Whether the tick at reading `ts[j]`, after those before it, reports `e`.
pub open spec fn reported_at(w: WorkerView, ts: Seq<u64>, j: int, e: UICommandView) -> bool {
    tick_reports(run_ticks(w, ts.subrange(0, j)), ts[j]).contains(e)
}

pub open spec fn has_peer(online: Seq<PeerView>, p: PeerView) -> bool {
    exists|k: int| 0 <= k < online.len() && online[k] == p
}

proof fn lemma_kept_peer(online: Seq<PeerView>, now: u64, t: Timing, p: PeerView)
    requires
        has_peer(online, p),
        elapsed(now, p.last_heard) <= t.offline_timeout,
    ensures
        has_peer(tick_kept(online, now, t), p),
    decreases online.len(),
{
    let k = choose|k: int| 0 <= k < online.len() && online[k] == p;
    let kept = tick_kept(online, now, t);
    if k == online.len() - 1 {
        assert(kept[kept.len() - 1] == p);
    } else {
        assert(online.drop_last()[k] == p);
        lemma_kept_peer(online.drop_last(), now, t, p);
        let rest = tick_kept(online.drop_last(), now, t);
        let x = choose|x: int| 0 <= x < rest.len() && rest[x] == p;
        assert(kept[x] == p);
    }
}

/// The timeout after which a silent peer is reported: inactive, or removed.
pub open spec fn report_bound(t: Timing, removal: bool) -> u64 {
    if removal {
        t.offline_timeout
    } else {
        t.inactive_timeout
    }
}

/// The report for a silent peer: removal, or an inactive update.
pub open spec fn silence_report(p: PeerView, removal: bool) -> UICommandView {
    if removal {
        UICommandView::RemovePresence(p.id, p.username)
    } else {
        UICommandView::PresenceUpdate(p.id, p.username, true, KindView::Boring)
    }
}

/// With clock ticks at most `g` milliseconds apart, starting at most `g`
/// after the last heartbeat, a peer last heard at `t0` and silent since is
/// reported inactive (or, with `removal`, removed) at some tick no later
/// than `t0` plus the inactive (offline) timeout, the heartbeat interval and
/// `g`. The peer must be heard no earlier than that heartbeat minus the
/// timeout. With the defaults and frequent ticks that is between five and
/// six seconds after it fell silent (fifteen and sixteen for removal).
pub proof fn lemma_reported_within_window(w: WorkerView, ts: Seq<u64>, p: PeerView, g: u64, removal: bool)
    requires
        w.wf(),
        w.state == NetThreadState::Ready,
        has_peer(w.online, p),
        p.last_heard <= w.last_heartbeat,
        w.last_heartbeat <= p.last_heard + report_bound(w.timing, removal),
        !removal ==> w.timing.inactive_timeout + w.timing.heartbeat_interval + g <= w.timing.offline_timeout,
        ts.len() > 0,
        w.last_heartbeat <= ts[0] <= w.last_heartbeat + g,
        forall|j: int| 0 < j < ts.len() ==> ts[j - 1] <= #[trigger] ts[j] <= ts[j - 1] + g,
        ts.last() > p.last_heard + report_bound(w.timing, removal) + w.timing.heartbeat_interval,
    ensures
        exists|j: int|
            0 <= j < ts.len() && ts[j] <= p.last_heard + report_bound(w.timing, removal)
                + w.timing.heartbeat_interval + g && #[trigger] reported_at(
                w,
                ts,
                j,
                silence_report(p, removal),
            ),
{
    let e = silence_report(p, removal);
    let limit = p.last_heard + report_bound(w.timing, removal) + w.timing.heartbeat_interval + g;
    let n = ts.len() as int;
    if !(exists|j: int| 0 <= j < n && ts[j] <= limit && #[trigger] reported_at(w, ts, j, e)) {
        lemma_waiting(w, ts, p, g, removal, n);
        assert(ts.subrange(0, n) =~= ts);
        assert(ts[n - 1] == ts.last());
    }
}

/// Until the peer is reported, every tick leaves it in the roster and the
/// last heartbeat no later than one timeout after `t0`, at most one interval
/// before the latest tick.
proof fn lemma_waiting(w: WorkerView, ts: Seq<u64>, p: PeerView, g: u64, removal: bool, j: int)
    requires
        w.wf(),
        w.state == NetThreadState::Ready,
        has_peer(w.online, p),
        p.last_heard <= w.last_heartbeat,
        w.last_heartbeat <= p.last_heard + report_bound(w.timing, removal),
        !removal ==> w.timing.inactive_timeout + w.timing.heartbeat_interval + g <= w.timing.offline_timeout,
        ts.len() > 0,
        w.last_heartbeat <= ts[0] <= w.last_heartbeat + g,
        forall|i: int| 0 < i < ts.len() ==> ts[i - 1] <= #[trigger] ts[i] <= ts[i - 1] + g,
        1 <= j <= ts.len(),
        forall|i: int|
            0 <= i < j ==> !(ts[i] <= p.last_heard + report_bound(w.timing, removal)
                + w.timing.heartbeat_interval + g && #[trigger] reported_at(
                w,
                ts,
                i,
                silence_report(p, removal),
            )),
    ensures
        ({
            let v = run_ticks(w, ts.subrange(0, j));
            &&& v.state == NetThreadState::Ready
            &&& v.timing == w.timing
            &&& has_peer(v.online, p)
            &&& p.last_heard <= v.last_heartbeat <= p.last_heard + report_bound(w.timing, removal)
            &&& ts[j - 1] <= v.last_heartbeat + w.timing.heartbeat_interval
        }),
    decreases j,
{
    let t = w.timing;
    let pre = ts.subrange(0, j - 1);
    let u = run_ticks(w, pre);
    assert(ts.subrange(0, j).drop_last() =~= pre);
    assert(ts.subrange(0, j).last() == ts[j - 1]);
    if j > 1 {
        lemma_waiting(w, ts, p, g, removal, j - 1);
        assert(ts[j - 2] <= ts[j - 1] <= ts[j - 2] + g);
    } else {
        assert(pre =~= Seq::<u64>::empty());
    }
    let now = ts[j - 1];
    if heartbeat_due(u, now) {
        assert(now <= p.last_heard + report_bound(t, removal) + t.heartbeat_interval + g);
        if elapsed(now, p.last_heard) > report_bound(t, removal) {
            let k = choose|k: int| 0 <= k < u.online.len() && u.online[k] == p;
            lemma_silent_peer_reported(u.online, now, t, k);
            assert(reported_at(w, ts, j - 1, silence_report(p, removal)));
            assert(false);
        }
        lemma_kept_peer(u.online, now, t, p);
    }
}

/// A heartbeat reports a peer inactive or removed only when some roster
/// entry of its id has been silent beyond the inactive timeout.
pub proof fn lemma_reported_only_when_silent(online: Seq<PeerView>, now: u64, t: Timing, e: UICommandView)
    requires
        t.wf(),
        tick_events(online, now, t).contains(e),
    ensures
        e matches UICommandView::PresenceUpdate(id, _, _, _) ==> exists|k: int|
            0 <= k < online.len() && online[k].id == id && elapsed(now, online[k].last_heard)
                > t.inactive_timeout,
        e matches UICommandView::RemovePresence(id, _) ==> exists|k: int|
            0 <= k < online.len() && online[k].id == id && elapsed(now, online[k].last_heard)
                > t.offline_timeout,
    decreases online.len(),
{
    let ev = tick_events(online, now, t);
    let rest = tick_events(online.drop_last(), now, t);
    let x = choose|x: int| 0 <= x < ev.len() && ev[x] == e;
    if x < rest.len() {
        assert(ev[x] == rest[x]);
        lemma_reported_only_when_silent(online.drop_last(), now, t, e);
        if e is PresenceUpdate || e is RemovePresence {
            let k = choose|k: int| 0 <= k < online.drop_last().len() && online.drop_last()[k].id == (match e {
                UICommandView::PresenceUpdate(id, _, _, _) => id,
                UICommandView::RemovePresence(id, _) => id,
                _ => Seq::empty(),
            }) && elapsed(now, online.drop_last()[k].last_heard) > (if e is PresenceUpdate {
                t.inactive_timeout
            } else {
                t.offline_timeout
            });
            assert(online[k] == online.drop_last()[k]);
        }
    } else {
        assert(online[online.len() - 1] == online.last());
    }
}

} // verus!
