use vstd::prelude::*;
use vstd::string::StringSliceAdditionalSpecFns;

use crate::error::ArpchatError;
use crate::net::{EtherType, Id};

verus! {

/// Why a roster entry is reported.
#[derive(Clone, Debug, PartialEq, Eq)]
pub enum UpdatePresenceKind {
    Boring,
    JoinOrReconnect,
    /// The peer now goes by another name; this is the former one.
    UsernameChange(String),
}

pub enum KindView {
    Boring,
    JoinOrReconnect,
    UsernameChange(Seq<char>),
}

impl View for UpdatePresenceKind {
    type V = KindView;

    open spec fn view(&self) -> KindView {
        match self {
            UpdatePresenceKind::Boring => KindView::Boring,
            UpdatePresenceKind::JoinOrReconnect => KindView::JoinOrReconnect,
            UpdatePresenceKind::UsernameChange(s) => KindView::UsernameChange(s@),
        }
    }
}

/// Events for the user interface.
#[derive(Clone, Debug, PartialEq, Eq)]
pub enum UICommand {
    AlertUser,
    UpdateUsername(String),
    /// A line typed by the user.
    SendMessage(String),
    /// The channel the user's messages go to from now on.
    SetChannel(String),
    SetInterface(String),
    SetEtherType(EtherType),
    /// Author, author's name, channel, text, and whether it is the local
    /// echo of a message still being sent.
    NewMessage(Id, String, String, String, bool),
    /// Peer, name, whether it has gone quiet, and why it is reported.
    PresenceUpdate(Id, String, bool, UpdatePresenceKind),
    RemovePresence(Id, String),
    Error(ArpchatError),
}

pub enum UICommandView {
    AlertUser,
    UpdateUsername(Seq<char>),
    SendMessage(Seq<char>),
    SetChannel(Seq<char>),
    SetInterface(Seq<char>),
    SetEtherType(EtherType),
    NewMessage(Seq<u8>, Seq<char>, Seq<char>, Seq<char>, bool),
    PresenceUpdate(Seq<u8>, Seq<char>, bool, KindView),
    RemovePresence(Seq<u8>, Seq<char>),
    Error(ArpchatError),
}

impl View for UICommand {
    type V = UICommandView;

    open spec fn view(&self) -> UICommandView {
        match self {
            UICommand::AlertUser => UICommandView::AlertUser,
            UICommand::UpdateUsername(s) => UICommandView::UpdateUsername(s@),
            UICommand::SendMessage(t) => UICommandView::SendMessage(t@),
            UICommand::SetChannel(c) => UICommandView::SetChannel(c@),
            UICommand::SetInterface(s) => UICommandView::SetInterface(s@),
            UICommand::SetEtherType(e) => UICommandView::SetEtherType(*e),
            UICommand::NewMessage(id, n, c, t, e) => UICommandView::NewMessage(id@, n@, c@, t@, *e),
            UICommand::PresenceUpdate(id, n, i, k) => UICommandView::PresenceUpdate(id@, n@, *i, k@),
            UICommand::RemovePresence(id, n) => UICommandView::RemovePresence(id@, n@),
            UICommand::Error(e) => UICommandView::Error(*e),
        }
    }
}

/// Commands for the network worker.
#[derive(Clone, Debug, PartialEq, Eq)]
pub enum NetCommand {
    UpdateUsername(String),
    /// Channel and text of a message to broadcast.
    SendMessage(String, String),
    SetInterface(String),
    SetEtherType(EtherType),
    /// The packet id of a message, and the character to react with.
    Reaction(Id, char),
    PauseHeartbeat(bool),
    Terminate,
}

/// Sum of the bytes.
pub open spec fn byte_sum(s: Seq<u8>) -> nat
    decreases s.len(),
{
    if s.len() == 0 {
        0
    } else {
        byte_sum(s.drop_last()) + s.last() as nat
    }
}

/// Number of colours a peer's name may be drawn in.
pub const COLOR_COUNT: usize = 8;

/// The colour slot of a peer: the byte sum of its id, modulo 256, modulo
/// `COLOR_COUNT`.
pub fn color_index(id: &Id) -> (r: usize)
    ensures
        r == (byte_sum(id@) % 256) % 8,
        r < COLOR_COUNT,
{
    let mut acc: u8 = 0;
    let mut i: usize = 0;
    while i < 8
        invariant
            i <= 8,
            acc as nat == byte_sum(id@.subrange(0, i as int)) % 256,
        decreases 8 - i,
    {
        proof {
            assert(id@.subrange(0, i + 1).drop_last() =~= id@.subrange(0, i as int));
        }
        acc = ((acc as u16 + id[i] as u16) % 256) as u8;
        i = i + 1;
    }
    assert(id@.subrange(0, 8) =~= id@);
    (acc % 8) as usize
}

/// The window title: the interface name is shown only when its UTF-8 form is
/// at most eight bytes long.
pub fn window_title(username: &str, interface: &str) -> (r: String)
    ensures
        interface.spec_bytes().len() <= 8 ==> r@ == "arpchat: "@ + username@ + " ("@ + interface@ + ")"@,
        interface.spec_bytes().len() > 8 ==> r@ == "arpchat: "@ + username@,
{
    let mut title = String::from_str("arpchat: ");
    title.append(username);
    if interface.as_bytes().len() <= 8 {
        title.append(" (");
        title.append(interface);
        title.append(")");
    }
    title
}

/// Whether two strings hold the same characters.
pub fn same_chars(a: &str, b: &str) -> (r: bool)
    ensures
        r == (a@ == b@),
{
    let n = a.unicode_len();
    if n != b.unicode_len() {
        return false;
    }
    let mut i: usize = 0;
    while i < n
        invariant
            n == a@.len(),
            n == b@.len(),
            i <= n,
            forall|j: int| 0 <= j < i ==> a@[j] == b@[j],
        decreases n - i,
    {
        if a.get_char(i) != b.get_char(i) {
            return false;
        }
        i = i + 1;
    }
    assert(a@ =~= b@);
    true
}

/// The worker command for a line typed into channel `channel`: "/offline"
/// and "/online" pause and resume heartbeats, an empty line does nothing,
/// anything else is a message.
pub fn input_command(channel: &str, text: &str) -> (r: Option<NetCommand>)
    ensures
        if text@ == "/offline"@ {
            r == Some(NetCommand::PauseHeartbeat(true))
        } else if text@ == "/online"@ {
            r == Some(NetCommand::PauseHeartbeat(false))
        } else if text@.len() == 0 {
            r is None
        } else {
            r matches Some(NetCommand::SendMessage(c, t)) && c@ == channel@ && t@ == text@
        },
{
    if same_chars(text, "/offline") {
        Some(NetCommand::PauseHeartbeat(true))
    } else if same_chars(text, "/online") {
        Some(NetCommand::PauseHeartbeat(false))
    } else if text.unicode_len() == 0 {
        None
    } else {
        Some(NetCommand::SendMessage(String::from_str(channel), String::from_str(text)))
    }
}

} // verus!
