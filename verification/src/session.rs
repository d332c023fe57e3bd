//! The routing state of one relay session and every change a socket event makes
//! to it. Each operation gives back the messages it sends, as deliveries; the
//! session hands them to the sockets' outbound channels with `dispatch`.

use vstd::prelude::*;
use std::collections::VecDeque;
use tokio::sync::mpsc::Sender;
use crate::assoc::{
    assoc_map, has_key, lemma_assoc_dom, lemma_assoc_empty, lemma_assoc_facts, lemma_assoc_push,
    lemma_assoc_remove, unique_keys,
};
use crate::channel::{
    chained, free_slots, handed_of, lemma_chained_append, try_send, Handover, QueueRoom, SendAttempt,
    SendLog, SendOutcome,
};
use crate::config::RelayLimitsConfig;
use crate::json::{
    connected_message, connected_text, disconnected_message, disconnected_text, is_ping_text,
    pong_message, pong_text, strings_view, sync_message, sync_text, text_is_ping,
};
use crate::peer::{PeerId, PeerKind, PeerKindView, PeerMeta, PeerMetaView};
use crate::protocol::RelayVersion;
use crate::text::{lemma_seq_lt_total, lemma_seq_lt_transitive, seq_lt, str_eq, str_lt};

verus! {

/// The milliseconds since the Unix epoch by the system clock, from
/// `SystemTime::elapsed` on `UNIX_EPOCH`; `None` when the clock is set before
/// the epoch. Nothing is claimed of the value: it is the time.
#[verifier::external_body]
fn unix_time_millis() -> Option<u128> {
    std::time::UNIX_EPOCH.elapsed().ok().map(|d| d.as_millis())
}

/// A clock reading in milliseconds as a `u64`: its low 64 bits, or 0 for a clock
/// set before the epoch.
pub open spec fn millis_value(reading: Option<u128>) -> u64 {
    match reading {
        Some(m) => (m % 0x1_0000_0000_0000_0000) as u64,
        None => 0,
    }
}

/// Turns a clock reading in milliseconds into a `u64` timestamp: its low 64 bits,
/// or 0 for a clock set before the epoch.
pub fn millis_of(reading: Option<u128>) -> (res: u64)
    ensures
        res == millis_value(reading),
{
    match reading {
        Some(ms) => (ms % 0x1_0000_0000_0000_0000u128) as u64,
        None => 0,
    }
}

/// The current time in milliseconds since the Unix epoch, or 0 when the clock is
/// before it; the value is cut to its low 64 bits by `millis_of`. Every `u64` is
/// some reading's value, so nothing is claimed of the result: it is the time.
pub fn now_ms() -> u64 {
    millis_of(unix_time_millis())
}

/// Most frames kept for a connection whose server data socket has not arrived.
pub const PENDING_FRAME_LIMIT: usize = 200;

/// A data frame as it travels through the relay.
#[derive(Debug)]
pub enum RelayFrame {
    Text(String),
    Binary(Vec<u8>),
}

pub enum FrameView {
    Text(Seq<char>),
    Binary(Seq<u8>),
}

impl View for RelayFrame {
    type V = FrameView;

    open spec fn view(&self) -> FrameView {
        match self {
            RelayFrame::Text(s) => FrameView::Text(s@),
            RelayFrame::Binary(b) => FrameView::Binary(b@),
        }
    }
}

pub fn clone_bytes(b: &Vec<u8>) -> (res: Vec<u8>)
    ensures
        res@ == b@,
{
    let res = b.clone();
    assert(res@ =~= b@);
    res
}

impl Clone for RelayFrame {
    fn clone(&self) -> (res: Self)
        ensures
            res@ == self@,
    {
        match self {
            RelayFrame::Text(s) => RelayFrame::Text(s.clone()),
            RelayFrame::Binary(b) => RelayFrame::Binary(clone_bytes(b)),
        }
    }
}

/// A message queued for a socket.
#[derive(Debug)]
pub enum OutboundMessage {
    Text(String),
    Binary(Vec<u8>),
    Pong(Vec<u8>),
    Close { code: u16, reason: String },
}

pub enum MessageView {
    Text(Seq<char>),
    Binary(Seq<u8>),
    Pong(Seq<u8>),
    Close(u16, Seq<char>),
}

impl View for OutboundMessage {
    type V = MessageView;

    open spec fn view(&self) -> MessageView {
        match self {
            OutboundMessage::Text(s) => MessageView::Text(s@),
            OutboundMessage::Binary(b) => MessageView::Binary(b@),
            OutboundMessage::Pong(b) => MessageView::Pong(b@),
            OutboundMessage::Close { code, reason } => MessageView::Close(*code, reason@),
        }
    }
}

/// The message that forwards a frame unchanged.
pub open spec fn frame_message(f: FrameView) -> MessageView {
    match f {
        FrameView::Text(s) => MessageView::Text(s),
        FrameView::Binary(b) => MessageView::Binary(b),
    }
}

pub fn forward_message(frame: RelayFrame) -> (res: OutboundMessage)
    ensures
        res@ == frame_message(frame@),
{
    match frame {
        RelayFrame::Text(s) => OutboundMessage::Text(s),
        RelayFrame::Binary(b) => OutboundMessage::Binary(b),
    }
}

pub fn close_message(code: u16, reason: &str) -> (res: OutboundMessage)
    ensures
        res@ == MessageView::Close(code, reason@),
{
    OutboundMessage::Close { code, reason: String::from_str(reason) }
}

/// A message for the socket of a peer.
#[derive(Debug)]
pub struct Delivery {
    pub peer: PeerId,
    pub message: OutboundMessage,
}

pub open spec fn deliveries_view(d: Seq<Delivery>) -> Seq<(PeerId, MessageView)> {
    d.map_values(|x: Delivery| (x.peer, x.message@))
}

/// An accepted socket: what it is, and the channel of its outbound messages.
pub struct PeerHandle {
    pub meta: PeerMeta,
    pub tx: Sender<OutboundMessage>,
}

/// The message that a socket whose queue is full is closed with.
pub open spec fn slow_consumer_close() -> MessageView {
    MessageView::Close(1013, "Slow consumer"@)
}

/// What is handed to a socket's queue instead of `m` when `free` places are left:
/// the last place is kept for the slow-consumer close, so that a socket whose
/// queue fills up is always told to close.
pub open spec fn handed_message(free: usize, m: MessageView) -> MessageView {
    if free > 1 {
        m
    } else {
        slow_consumer_close()
    }
}

/// Chooses what to queue for `message` when `free` places are left in the queue.
pub fn outbound_choice(free: usize, message: OutboundMessage) -> (res: OutboundMessage)
    ensures
        res@ == handed_message(free, message@),
{
    if free > 1 {
        message
    } else {
        close_message(1013, "Slow consumer")
    }
}

/// The close that follows a hand-over that found the queue full: the slow-consumer
/// close, and nothing after any other outcome.
pub open spec fn follow_up_view(outcome: SendOutcome) -> Option<MessageView> {
    match outcome {
        SendOutcome::Full => Some(slow_consumer_close()),
        _ => None,
    }
}

pub open spec fn opt_message_view(m: Option<OutboundMessage>) -> Option<MessageView> {
    match m {
        Some(x) => Some(x@),
        None => None,
    }
}

/// Decides what follows a hand-over with this outcome: a queue found full gets the
/// slow-consumer close.
pub fn follow_up(outcome: &SendOutcome) -> (res: Option<OutboundMessage>)
    ensures
        opt_message_view(res) == follow_up_view(*outcome),
{
    match outcome {
        SendOutcome::Full => Some(close_message(1013, "Slow consumer")),
        _ => None,
    }
}

/// The hand-overs that `send_or_close` owes on channel `ch` for `m`, given the
/// room its queue had: the message that `handed_message` picks for that room; and,
/// when that hand-over found the queue full, the slow-consumer close after it.
pub open spec fn sent_as_owed(ch: Sender<OutboundMessage>, m: MessageView, room: QueueRoom, attempts: Seq<SendAttempt>) -> bool {
    &&& room.channel() == ch
    &&& attempts.len() >= 1
    &&& attempts[0].handed() == (ch, handed_message(room.count(), m))
    &&& if attempts[0].result() is Full {
        attempts.len() == 2 && attempts[1].handed() == (ch, slow_consumer_close())
    } else {
        attempts.len() == 1
    }
}

/// What `send_or_close` did: the room the queue had when asked, and its
/// hand-overs to the channel, in order.
pub struct SendReport {
    pub room: QueueRoom,
    pub attempts: Vec<SendAttempt>,
}

/// Queues `message` on a socket's channel when at least two places are free; with
/// one place or none left it queues the slow-consumer close instead, which the
/// kept place takes while the socket has not been told to close yet. The outbound
/// queue is therefore opened with one place more than the messages it holds. When
/// the hand-over still finds the queue full, the slow-consumer close is tried once
/// more. The hand-overs go through `log`, after those already in it.
pub fn send_logged(log: &mut SendLog, tx: &Sender<OutboundMessage>, message: OutboundMessage) -> (res: SendReport)
    ensures
        sent_as_owed(*tx, message@, res.room, res.attempts@),
        chained(res.attempts@, old(log).entries()),
        final(log).entries() == old(log).entries() + handed_of(res.attempts@),
{
    let room = free_slots(tx);
    let handed = outbound_choice(room.free(), message);
    let first = try_send(log, tx, handed);
    let follow = follow_up(&first.outcome());
    let mut attempts: Vec<SendAttempt> = Vec::new();
    attempts.push(first);
    match follow {
        Some(close) => {
            let second = try_send(log, tx, close);
            attempts.push(second);
        },
        None => {},
    }
    proof {
        assert(attempts@.take(0) =~= Seq::<SendAttempt>::empty());
        assert(handed_of(attempts@.take(0)) =~= Seq::<Handover>::empty());
        if attempts@.len() == 2 {
            assert(attempts@.take(1) =~= seq![attempts@[0]]);
            assert(handed_of(attempts@.take(1)) =~= seq![attempts@[0].handed()]);
        }
        assert(old(log).entries() + handed_of(attempts@.take(0)) =~= old(log).entries());
        if attempts@.len() == 2 {
            assert(old(log).entries() + handed_of(attempts@.take(1)) =~= old(log).entries().push(attempts@[0].handed()));
        }
        assert(chained(attempts@, old(log).entries()));
        assert(handed_of(attempts@) =~= if attempts@.len() == 2 {
            seq![attempts@[0].handed(), attempts@[1].handed()]
        } else {
            seq![attempts@[0].handed()]
        });
    }
    SendReport { room, attempts }
}

/// `send_logged` on a log of its own: the hand-overs of one message, made in the
/// order of the attempts.
pub fn send_or_close(tx: &Sender<OutboundMessage>, message: OutboundMessage) -> (res: SendReport)
    ensures
        sent_as_owed(*tx, message@, res.room, res.attempts@),
        chained(res.attempts@, Seq::<Handover>::empty()),
{
    let mut log = SendLog::new();
    send_logged(&mut log, tx, message)
}

/// Queues the close `code`/`reason` on a socket's channel through `log` if there is
/// room; the close is dropped otherwise. Gives back the hand-over.
pub fn close_logged(log: &mut SendLog, tx: &Sender<OutboundMessage>, code: u16, reason: &str) -> (res: SendAttempt)
    ensures
        res.handed() == (*tx, MessageView::Close(code, reason@)),
        res.prior() == old(log).entries(),
        final(log).entries() == old(log).entries().push(res.handed()),
{
    try_send(log, tx, close_message(code, reason))
}

/// Queues the close `code`/`reason` on a socket's channel if there is room; the
/// close is dropped otherwise. Gives back the hand-over.
pub fn close_handle(tx: &Sender<OutboundMessage>, code: u16, reason: &str) -> (res: SendAttempt)
    ensures
        res.handed() == (*tx, MessageView::Close(code, reason@)),
        res.prior() == Seq::<Handover>::empty(),
{
    let mut log = SendLog::new();
    close_logged(&mut log, tx, code, reason)
}

/// The close of a socket whose registration was refused for `reason`.
pub fn refusal_close(reason: &str) -> (res: OutboundMessage)
    ensures
        res@ == MessageView::Close(1008, reason@),
{
    close_message(1008, reason)
}

/// Identifies a session: the server it relays for and the protocol version.
#[derive(Debug, PartialEq, Eq, Hash)]
pub struct SessionKey {
    pub server_id: String,
    pub version: RelayVersion,
}

impl Clone for SessionKey {
    fn clone(&self) -> (res: Self)
        ensures
            res.server_id@ == self.server_id@,
            res.version == self.version,
    {
        SessionKey { server_id: self.server_id.clone(), version: self.version }
    }
}

impl SessionKey {
    /// The session that a socket with these parameters joins.
    pub fn for_params(params: &crate::protocol::WsParams) -> (res: SessionKey)
        ensures
            res.server_id@ == params.server_id@,
            res.version == params.version,
    {
        SessionKey { server_id: params.server_id.clone(), version: params.version }
    }
}

/// The deliveries of `d` whose peer has a channel in `channels`, in their order.
pub open spec fn attached_only(
    d: Seq<(PeerId, MessageView)>,
    channels: Map<PeerId, Sender<OutboundMessage>>,
) -> Seq<(PeerId, MessageView)>
    decreases d.len(),
{
    if d.len() == 0 {
        seq![]
    } else if channels.contains_key(d.last().0) {
        attached_only(d.drop_last(), channels).push(d.last())
    } else {
        attached_only(d.drop_last(), channels)
    }
}

/// The view of an optional peer description.
pub open spec fn opt_meta(m: Option<PeerMeta>) -> Option<PeerMetaView> {
    match m {
        Some(x) => Some(x@),
        None => None,
    }
}

pub open spec fn server_data_pairs(s: Seq<(String, PeerMeta)>) -> Seq<(Seq<char>, PeerMetaView)> {
    s.map_values(|e: (String, PeerMeta)| (e.0@, e.1@))
}

pub open spec fn member_pairs(m: Seq<PeerMeta>) -> Seq<(PeerId, PeerMetaView)> {
    m.map_values(|p: PeerMeta| (p.peer_id, p@))
}

/// The client sockets of one connection id, by peer id.
pub open spec fn group_map(m: Seq<PeerMeta>) -> Map<PeerId, PeerMetaView> {
    assoc_map(member_pairs(m))
}

pub open spec fn client_pairs(c: Seq<(String, Vec<PeerMeta>)>) -> Seq<(Seq<char>, Map<PeerId, PeerMetaView>)> {
    c.map_values(|g: (String, Vec<PeerMeta>)| (g.0@, group_map(g.1@)))
}

pub open spec fn frames_view(q: Seq<RelayFrame>) -> Seq<FrameView> {
    q.map_values(|f: RelayFrame| f@)
}

pub open spec fn pending_pairs(p: Seq<(String, VecDeque<RelayFrame>)>) -> Seq<(Seq<char>, Seq<FrameView>)> {
    p.map_values(|e: (String, VecDeque<RelayFrame>)| (e.0@, frames_view(e.1@)))
}

/// The number of client sockets held in the groups.
pub open spec fn client_sum(c: Seq<(String, Vec<PeerMeta>)>) -> nat
    decreases c.len(),
{
    if c.len() == 0 {
        0
    } else {
        client_sum(c.drop_last()) + c.last().1@.len()
    }
}

/// What a session holds, as maps.
#[verifier::ext_equal]
pub struct SessionView {
    pub limits: RelayLimitsConfig,
    pub v1_server: Option<PeerMetaView>,
    pub v1_client: Option<PeerMetaView>,
    pub server_control: Option<PeerMetaView>,
    /// The server data socket of each connection id.
    pub server_data: Map<Seq<char>, PeerMetaView>,
    /// The client sockets of each connection id, by peer id.
    pub clients: Map<Seq<char>, Map<PeerId, PeerMetaView>>,
    /// How many client sockets `clients` holds in all.
    pub client_count: nat,
    /// Frames of clients that wait for the server data socket of their connection id.
    pub pending: Map<Seq<char>, Seq<FrameView>>,
    /// The outbound channel of each registered socket that has not left.
    pub channels: Map<PeerId, Sender<OutboundMessage>>,
}

/// A connection id has a client socket.
pub open spec fn has_members(g: Map<PeerId, PeerMetaView>) -> bool {
    exists|p: PeerId| g.contains_key(p)
}

/// The number of sockets a session routes for.
pub open spec fn live_count(v: SessionView) -> nat {
    (if v.v1_server is Some { 1nat } else { 0nat }) + (if v.v1_client is Some { 1nat } else { 0nat })
        + (if v.server_control is Some { 1nat } else { 0nat }) + v.server_data.dom().len()
        + v.client_count
}

/// The connection ids that have at least one client socket.
pub open spec fn active_ids(v: SessionView) -> Set<Seq<char>> {
    Set::new(|k: Seq<char>| v.clients.contains_key(k) && has_members(v.clients[k]))
}

/// Each string comes strictly before the next.
pub open spec fn sorted_strict(s: Seq<Seq<char>>) -> bool {
    forall|i: int, j: int| 0 <= i < j < s.len() ==> seq_lt(#[trigger] s[i], #[trigger] s[j])
}

/// The routing state of one `(serverId, version)` session.
pub struct SessionState {
    limits: RelayLimitsConfig,
    v1_server: Option<PeerMeta>,
    v1_client: Option<PeerMeta>,
    server_control: Option<PeerMeta>,
    server_data: Vec<(String, PeerMeta)>,
    clients: Vec<(String, Vec<PeerMeta>)>,
    pending: Vec<(String, VecDeque<RelayFrame>)>,
    channels: Vec<(PeerId, Sender<OutboundMessage>)>,
}

impl View for SessionState {
    type V = SessionView;

    closed spec fn view(&self) -> SessionView {
        SessionView {
            limits: self.limits,
            v1_server: opt_meta(self.v1_server),
            v1_client: opt_meta(self.v1_client),
            server_control: opt_meta(self.server_control),
            server_data: assoc_map(server_data_pairs(self.server_data@)),
            clients: assoc_map(client_pairs(self.clients@)),
            client_count: client_sum(self.clients@),
            pending: assoc_map(pending_pairs(self.pending@)),
            channels: assoc_map(self.channels@),
        }
    }
}

impl SessionState {
    /// The invariant of the representation: keys are distinct, each slot holds a
    /// socket of its own kind, pending queues are bounded, and the limits hold.
    pub closed spec fn wf(&self) -> bool {
        &&& unique_keys(server_data_pairs(self.server_data@))
        &&& unique_keys(client_pairs(self.clients@))
        &&& unique_keys(pending_pairs(self.pending@))
        &&& unique_keys(self.channels@)
        &&& forall|i: int|
            0 <= i < self.clients@.len() ==> unique_keys(member_pairs(#[trigger] self.clients@[i].1@))
        &&& forall|i: int|
            0 <= i < self.pending@.len() ==> (#[trigger] self.pending@[i]).1@.len() <= PENDING_FRAME_LIMIT
        &&& forall|i: int|
            0 <= i < self.clients@.len() ==> (#[trigger] self.clients@[i]).1@.len()
                <= self.limits.max_clients_per_connection
        &&& live_count(self@) <= self.limits.max_sockets_per_session
        &&& self.v1_server matches Some(m) ==> m.kind@ == PeerKindView::V1Server
        &&& self.v1_client matches Some(m) ==> m.kind@ == PeerKindView::V1Client
        &&& self.server_control matches Some(m) ==> m.kind@ == PeerKindView::V2ServerControl
        &&& forall|i: int|
            0 <= i < self.server_data@.len() ==> (#[trigger] self.server_data@[i]).1.kind@
                == PeerKindView::V2ServerData(self.server_data@[i].0@)
        &&& forall|i: int, j: int|
            0 <= i < self.clients@.len() && 0 <= j < self.clients@[i].1@.len() ==> (#[trigger] self.clients@[i].1@[j]).kind@
                == PeerKindView::V2Client(self.clients@[i].0@)
    }

    /// An empty session with these limits.
    pub fn new(limits: RelayLimitsConfig) -> (res: SessionState)
        ensures
            res.wf(),
            res@.limits == limits,
            res@.v1_server is None,
            res@.v1_client is None,
            res@.server_control is None,
            res@.server_data == Map::<Seq<char>, PeerMetaView>::empty(),
            res@.clients == Map::<Seq<char>, Map<PeerId, PeerMetaView>>::empty(),
            res@.client_count == 0,
            res@.pending == Map::<Seq<char>, Seq<FrameView>>::empty(),
            res@.channels == Map::<PeerId, Sender<OutboundMessage>>::empty(),
    {
        let res = SessionState {
            limits,
            v1_server: None,
            v1_client: None,
            server_control: None,
            server_data: Vec::new(),
            clients: Vec::new(),
            pending: Vec::new(),
            channels: Vec::new(),
        };
        proof {
            lemma_assoc_empty::<Seq<char>, PeerMetaView>();
            lemma_assoc_empty::<Seq<char>, Map<PeerId, PeerMetaView>>();
            lemma_assoc_empty::<Seq<char>, Seq<FrameView>>();
            lemma_assoc_empty::<PeerId, Sender<OutboundMessage>>();
            assert(server_data_pairs(res.server_data@) =~= Seq::empty());
            assert(client_pairs(res.clients@) =~= Seq::empty());
            assert(pending_pairs(res.pending@) =~= Seq::empty());
            assert(res.channels@ =~= Seq::empty());
            assert(res@.server_data.dom() =~= Set::empty());
        }
        res
    }

    /// Every well-formed session keeps within its limits: no more live sockets than
    /// the session allows, no more clients on a connection id than allowed, no more
    /// waiting frames on one than the pending limit; and it names finitely many
    /// connection ids. `new` makes a well-formed session and every operation that
    /// changes one keeps it well-formed, so this holds of each session reached.
    pub proof fn lemma_wf_bounds(&self)
        requires
            self.wf(),
        ensures
            live_count(self@) <= self@.limits.max_sockets_per_session,
            self@.clients.dom().finite(),
            self@.server_data.dom().finite(),
            self@.pending.dom().finite(),
            forall|c: Seq<char>| #[trigger]
                self@.clients.contains_key(c) ==> self@.clients[c].dom().finite()
                    && self@.clients[c].dom().len() <= self@.limits.max_clients_per_connection,
            forall|c: Seq<char>| #[trigger]
                self@.pending.contains_key(c) ==> self@.pending[c].len() <= PENDING_FRAME_LIMIT,
            active_ids(self@).finite(),
    {
        let v = self@;
        let cp = client_pairs(self.clients@);
        let pp = pending_pairs(self.pending@);
        lemma_assoc_dom(cp);
        lemma_assoc_dom(pp);
        lemma_assoc_dom(server_data_pairs(self.server_data@));
        lemma_assoc_facts(cp);
        lemma_assoc_facts(pp);
        assert forall|c: Seq<char>| #[trigger] v.clients.contains_key(c) implies v.clients[c].dom().finite()
            && v.clients[c].dom().len() <= v.limits.max_clients_per_connection by {
            let i = choose|i: int| 0 <= i < cp.len() && #[trigger] cp[i].0 == c;
            lemma_group_unique(self.clients@, i);
            lemma_assoc_dom(member_pairs(self.clients@[i].1@));
        }
        assert forall|c: Seq<char>| #[trigger] v.pending.contains_key(c) implies v.pending[c].len()
            <= PENDING_FRAME_LIMIT by {
            let i = choose|i: int| 0 <= i < pp.len() && #[trigger] pp[i].0 == c;
            assert(self.pending@[i].1@.len() <= PENDING_FRAME_LIMIT);
        }
        assert(active_ids(v).subset_of(v.clients.dom()));
        vstd::set_lib::lemma_len_subset(active_ids(v), v.clients.dom());
    }
}

/// The strictly sorted list of the strings of a finite set.
pub open spec fn sorted_list_of(s: Set<Seq<char>>) -> Seq<Seq<char>> {
    choose|l: Seq<Seq<char>>| sorted_strict(l) && l.to_set() == s
}

/// Two strictly sorted lists with the same strings are the same list.
pub proof fn lemma_sorted_unique(a: Seq<Seq<char>>, b: Seq<Seq<char>>)
    requires
        sorted_strict(a),
        sorted_strict(b),
        a.to_set() == b.to_set(),
    ensures
        a == b,
    decreases a.len(),
{
    if a.len() == 0 {
        if b.len() > 0 {
            assert(b.to_set().contains(b[0]));
        }
        assert(a =~= b);
    } else if b.len() == 0 {
        assert(a.to_set().contains(a[0]));
    } else {
        // The first elements are the least of the common set.
        assert(b.to_set().contains(a[0]));
        assert(a.to_set().contains(b[0]));
        let i = choose|i: int| 0 <= i < b.len() && b[i] == a[0];
        let j = choose|j: int| 0 <= j < a.len() && a[j] == b[0];
        if a[0] != b[0] {
            assert(i > 0 && j > 0);
            assert(seq_lt(b[0], b[i]));
            assert(seq_lt(a[0], a[j]));
            lemma_seq_lt_transitive(a[0], b[0], a[0]);
            crate::text::lemma_seq_lt_irreflexive(a[0]);
        }
        let a2 = a.drop_first();
        let b2 = b.drop_first();
        assert(sorted_strict(a2)) by {
            assert forall|x: int, y: int| 0 <= x < y < a2.len() implies seq_lt(#[trigger] a2[x], #[trigger] a2[y]) by {
                assert(a2[x] == a[x + 1] && a2[y] == a[y + 1]);
            }
        }
        assert(sorted_strict(b2)) by {
            assert forall|x: int, y: int| 0 <= x < y < b2.len() implies seq_lt(#[trigger] b2[x], #[trigger] b2[y]) by {
                assert(b2[x] == b[x + 1] && b2[y] == b[y + 1]);
            }
        }
        assert forall|x: Seq<char>| a2.to_set().contains(x) == b2.to_set().contains(x) by {
            if a2.to_set().contains(x) {
                let k = choose|k: int| 0 <= k < a2.len() && a2[k] == x;
                assert(a[k + 1] == x);
                assert(seq_lt(a[0], a[k + 1]));
                assert(x != a[0]) by {
                    crate::text::lemma_seq_lt_irreflexive(a[0]);
                }
                assert(a.to_set().contains(x));
                let m = choose|m: int| 0 <= m < b.len() && b[m] == x;
                assert(m != 0);
                assert(b2[m - 1] == x);
            }
            if b2.to_set().contains(x) {
                let k = choose|k: int| 0 <= k < b2.len() && b2[k] == x;
                assert(b[k + 1] == x);
                assert(seq_lt(b[0], b[k + 1]));
                assert(x != b[0]) by {
                    crate::text::lemma_seq_lt_irreflexive(b[0]);
                }
                assert(b.to_set().contains(x));
                let m = choose|m: int| 0 <= m < a.len() && a[m] == x;
                assert(m != 0);
                assert(a2[m - 1] == x);
            }
        }
        assert(a2.to_set() =~= b2.to_set());
        lemma_sorted_unique(a2, b2);
        assert(a =~= seq![a[0]] + a2);
        assert(b =~= seq![b[0]] + b2);
    }
}

/// A strictly sorted list with one more string, put in its place.
proof fn lemma_sorted_insert(l: Seq<Seq<char>>, x: Seq<char>) -> (r: Seq<Seq<char>>)
    requires
        sorted_strict(l),
        !l.contains(x),
    ensures
        sorted_strict(r),
        r.to_set() == l.to_set().insert(x),
    decreases l.len(),
{
    if l.len() == 0 {
        let r = seq![x];
        assert(r.to_set() =~= l.to_set().insert(x)) by {
            assert(r[0] == x);
        }
        r
    } else {
        let h = l[0];
        let t = l.drop_first();
        assert(h != x) by {
            assert(l.contains(h));
        }
        assert(sorted_strict(t)) by {
            assert forall|a: int, b: int| 0 <= a < b < t.len() implies seq_lt(#[trigger] t[a], #[trigger] t[b]) by {
                assert(t[a] == l[a + 1] && t[b] == l[b + 1]);
            }
        }
        lemma_seq_lt_total(h, x);
        if seq_lt(x, h) {
            let r = seq![x] + l;
            assert(sorted_strict(r)) by {
                assert forall|a: int, b: int| 0 <= a < b < r.len() implies seq_lt(#[trigger] r[a], #[trigger] r[b]) by {
                    if a == 0 {
                        assert(r[b] == l[b - 1]);
                        if b > 1 {
                            lemma_seq_lt_transitive(x, h, l[b - 1]);
                        }
                    } else {
                        assert(r[a] == l[a - 1] && r[b] == l[b - 1]);
                    }
                }
            }
            assert(r.to_set() =~= l.to_set().insert(x)) by {
                assert forall|y: Seq<char>| r.to_set().contains(y) implies l.to_set().insert(x).contains(y) by {
                    let j = choose|j: int| 0 <= j < r.len() && r[j] == y;
                    if j > 0 {
                        assert(l[j - 1] == y);
                    }
                }
                assert forall|y: Seq<char>| l.to_set().insert(x).contains(y) implies r.to_set().contains(y) by {
                    if y == x {
                        assert(r[0] == y);
                    } else {
                        let j = choose|j: int| 0 <= j < l.len() && l[j] == y;
                        assert(r[j + 1] == y);
                    }
                }
            }
            r
        } else {
            assert(!t.contains(x)) by {
                if t.contains(x) {
                    let j = choose|j: int| 0 <= j < t.len() && t[j] == x;
                    assert(l[j + 1] == x);
                }
            }
            let r2 = lemma_sorted_insert(t, x);
            let r = seq![h] + r2;
            assert forall|y: Seq<char>| r2.to_set().contains(y) implies seq_lt(h, y) by {
                if y == x {
                } else {
                    assert(t.to_set().insert(x).contains(y));
                    let j = choose|j: int| 0 <= j < t.len() && t[j] == y;
                    assert(l[j + 1] == y);
                }
            }
            assert(sorted_strict(r)) by {
                assert forall|a: int, b: int| 0 <= a < b < r.len() implies seq_lt(#[trigger] r[a], #[trigger] r[b]) by {
                    assert(r[b] == r2[b - 1]);
                    if a == 0 {
                        assert(r2.to_set().contains(r2[b - 1]));
                    } else {
                        assert(r[a] == r2[a - 1]);
                    }
                }
            }
            assert(r.to_set() =~= l.to_set().insert(x)) by {
                assert forall|y: Seq<char>| r.to_set().contains(y) implies l.to_set().insert(x).contains(y) by {
                    let j = choose|j: int| 0 <= j < r.len() && r[j] == y;
                    if j == 0 {
                        assert(l[0] == y);
                    } else {
                        assert(r2[j - 1] == y);
                        assert(r2.to_set().contains(y));
                        if y != x {
                            assert(t.to_set().contains(y));
                            let k = choose|k: int| 0 <= k < t.len() && t[k] == y;
                            assert(l[k + 1] == y);
                        }
                    }
                }
                assert forall|y: Seq<char>| l.to_set().insert(x).contains(y) implies r.to_set().contains(y) by {
                    if y == h {
                        assert(r[0] == y);
                    } else {
                        if y != x {
                            let j = choose|j: int| 0 <= j < l.len() && l[j] == y;
                            assert(j != 0);
                            assert(t[j - 1] == y);
                        }
                        assert(t.to_set().insert(x).contains(y));
                        assert(r2.to_set().contains(y));
                        let k = choose|k: int| 0 <= k < r2.len() && r2[k] == y;
                        assert(r[k + 1] == y);
                    }
                }
            }
            r
        }
    }
}

/// Every finite set of strings has a strictly sorted list of exactly its strings.
proof fn lemma_sorted_list_exists(s: Set<Seq<char>>) -> (l: Seq<Seq<char>>)
    requires
        s.finite(),
    ensures
        sorted_strict(l),
        l.to_set() == s,
    decreases s.len(),
{
    if s.len() == 0 {
        s.lemma_len0_is_empty();
        let l = Seq::<Seq<char>>::empty();
        assert(l.to_set() =~= s);
        l
    } else {
        let x = s.choose();
        let rest = s.remove(x);
        let l0 = lemma_sorted_list_exists(rest);
        assert(!l0.contains(x)) by {
            if l0.contains(x) {
                assert(l0.to_set().contains(x));
            }
        }
        let l = lemma_sorted_insert(l0, x);
        assert(l.to_set() =~= s);
        l
    }
}

/// The list that `sorted_list_of` names is strictly sorted and holds exactly the
/// strings of the set, for every finite set.
pub proof fn lemma_sorted_list_of(s: Set<Seq<char>>)
    requires
        s.finite(),
    ensures
        sorted_strict(sorted_list_of(s)),
        sorted_list_of(s).to_set() == s,
{
    let l = lemma_sorted_list_exists(s);
    assert(sorted_strict(l) && l.to_set() == s);
}

proof fn lemma_client_sum_push(c: Seq<(String, Vec<PeerMeta>)>, x: (String, Vec<PeerMeta>))
    ensures
        client_sum(c.push(x)) == client_sum(c) + x.1@.len(),
{
    assert(c.push(x).drop_last() =~= c);
}

proof fn lemma_client_sum_remove(c: Seq<(String, Vec<PeerMeta>)>, i: int)
    requires
        0 <= i < c.len(),
    ensures
        client_sum(c) == client_sum(c.remove(i)) + c[i].1@.len(),
    decreases c.len(),
{
    if i == c.len() - 1 {
        assert(c.remove(i) =~= c.drop_last());
    } else {
        lemma_client_sum_remove(c.drop_last(), i);
        assert(c.remove(i).drop_last() =~= c.drop_last().remove(i));
        assert(c.remove(i).last() == c.last());
    }
}

proof fn lemma_client_sum_prefix(c: Seq<(String, Vec<PeerMeta>)>, i: int)
    requires
        0 <= i <= c.len(),
    ensures
        client_sum(c.subrange(0, i)) <= client_sum(c),
    decreases c.len(),
{
    if i < c.len() {
        lemma_client_sum_prefix(c.drop_last(), i);
        assert(c.drop_last().subrange(0, i) =~= c.subrange(0, i));
    } else {
        assert(c.subrange(0, i) =~= c);
    }
}

/// The client sockets of `id`, none when it has no group.
pub open spec fn group_of(v: SessionView, id: Seq<char>) -> Map<PeerId, PeerMetaView> {
    if v.clients.contains_key(id) {
        v.clients[id]
    } else {
        Map::empty()
    }
}

/// The frames waiting for `id`, none when it has no queue.
pub open spec fn pending_of(v: SessionView, id: Seq<char>) -> Seq<FrameView> {
    if v.pending.contains_key(id) {
        v.pending[id]
    } else {
        Seq::empty()
    }
}

impl SessionState {
    fn find_server_data(&self, id: &str) -> (res: Option<usize>)
        requires
            self.wf(),
        ensures
            match res {
                Some(i) => i < self.server_data@.len() && self.server_data@[i as int].0@ == id@
                    && self@.server_data.contains_key(id@) && self@.server_data[id@]
                    == self.server_data@[i as int].1@,
                None => !self@.server_data.contains_key(id@),
            },
    {
        let mut i: usize = 0;
        while i < self.server_data.len()
            invariant
                self.wf(),
                i <= self.server_data@.len(),
                forall|k: int| 0 <= k < i ==> self.server_data@[k].0@ != id@,
            decreases self.server_data@.len() - i,
        {
            if str_eq(self.server_data[i].0.as_str(), id) {
                proof {
                    crate::assoc::lemma_assoc_index(server_data_pairs(self.server_data@), i as int);
                }
                return Some(i);
            }
            i = i + 1;
        }
        proof {
            let p = server_data_pairs(self.server_data@);
            if has_key(p, id@) {
                let k = choose|k: int| 0 <= k < p.len() && #[trigger] p[k].0 == id@;
                assert(p[k].0 == self.server_data@[k].0@);
            }
        }
        None
    }

    fn find_group(&self, id: &str) -> (res: Option<usize>)
        requires
            self.wf(),
        ensures
            match res {
                Some(i) => i < self.clients@.len() && self.clients@[i as int].0@ == id@
                    && self@.clients.contains_key(id@) && self@.clients[id@] == group_map(
                    self.clients@[i as int].1@,
                ),
                None => !self@.clients.contains_key(id@),
            },
    {
        let mut i: usize = 0;
        while i < self.clients.len()
            invariant
                self.wf(),
                i <= self.clients@.len(),
                forall|k: int| 0 <= k < i ==> self.clients@[k].0@ != id@,
            decreases self.clients@.len() - i,
        {
            if str_eq(self.clients[i].0.as_str(), id) {
                proof {
                    crate::assoc::lemma_assoc_index(client_pairs(self.clients@), i as int);
                }
                return Some(i);
            }
            i = i + 1;
        }
        proof {
            let p = client_pairs(self.clients@);
            if has_key(p, id@) {
                let k = choose|k: int| 0 <= k < p.len() && #[trigger] p[k].0 == id@;
                assert(p[k].0 == self.clients@[k].0@);
            }
        }
        None
    }

    fn find_pending(&self, id: &str) -> (res: Option<usize>)
        requires
            self.wf(),
        ensures
            match res {
                Some(i) => i < self.pending@.len() && self.pending@[i as int].0@ == id@
                    && self@.pending.contains_key(id@) && self@.pending[id@] == frames_view(
                    self.pending@[i as int].1@,
                ),
                None => !self@.pending.contains_key(id@),
            },
    {
        let mut i: usize = 0;
        while i < self.pending.len()
            invariant
                self.wf(),
                i <= self.pending@.len(),
                forall|k: int| 0 <= k < i ==> self.pending@[k].0@ != id@,
            decreases self.pending@.len() - i,
        {
            if str_eq(self.pending[i].0.as_str(), id) {
                proof {
                    crate::assoc::lemma_assoc_index(pending_pairs(self.pending@), i as int);
                }
                return Some(i);
            }
            i = i + 1;
        }
        proof {
            let p = pending_pairs(self.pending@);
            if has_key(p, id@) {
                let k = choose|k: int| 0 <= k < p.len() && #[trigger] p[k].0 == id@;
                assert(p[k].0 == self.pending@[k].0@);
            }
        }
        None
    }

    fn find_channel(&self, peer: PeerId) -> (res: Option<usize>)
        requires
            self.wf(),
        ensures
            match res {
                Some(i) => i < self.channels@.len() && self.channels@[i as int].0 == peer
                    && self@.channels.contains_key(peer) && self@.channels[peer]
                    == self.channels@[i as int].1,
                None => !self@.channels.contains_key(peer),
            },
    {
        let mut i: usize = 0;
        while i < self.channels.len()
            invariant
                self.wf(),
                i <= self.channels@.len(),
                forall|k: int| 0 <= k < i ==> self.channels@[k].0 != peer,
            decreases self.channels@.len() - i,
        {
            if self.channels[i].0 == peer {
                proof {
                    crate::assoc::lemma_assoc_index(self.channels@, i as int);
                }
                return Some(i);
            }
            i = i + 1;
        }
        None
    }

    /// The number of sockets the session routes for.
    pub fn count_live_sockets(&self) -> (res: usize)
        requires
            self.wf(),
        ensures
            res == live_count(self@),
    {
        let mut total: usize = 0;
        if self.v1_server.is_some() {
            total = total + 1;
        }
        if self.v1_client.is_some() {
            total = total + 1;
        }
        if self.server_control.is_some() {
            total = total + 1;
        }
        proof {
            lemma_assoc_dom(server_data_pairs(self.server_data@));
        }
        total = total + self.server_data.len();
        let ghost base = total;
        let mut i: usize = 0;
        while i < self.clients.len()
            invariant
                self.wf(),
                i <= self.clients@.len(),
                total == base + client_sum(self.clients@.subrange(0, i as int)),
                base + client_sum(self.clients@) == live_count(self@),
            decreases self.clients@.len() - i,
        {
            proof {
                lemma_client_sum_prefix(self.clients@, i + 1);
                assert(self.clients@.subrange(0, i + 1).drop_last() =~= self.clients@.subrange(0, i as int));
            }
            total = total + self.clients[i].1.len();
            i = i + 1;
        }
        assert(self.clients@.subrange(0, i as int) =~= self.clients@);
        total
    }
}

proof fn lemma_group_unique(c: Seq<(String, Vec<PeerMeta>)>, i: int)
    requires
        0 <= i < c.len(),
        forall|k: int| 0 <= k < c.len() ==> unique_keys(member_pairs(#[trigger] c[k].1@)),
    ensures
        unique_keys(member_pairs(c[i].1@)),
{
}

proof fn lemma_has_members(m: Seq<PeerMeta>)
    requires
        unique_keys(member_pairs(m)),
    ensures
        has_members(group_map(m)) <==> m.len() > 0,
{
    if m.len() > 0 {
        crate::assoc::lemma_assoc_index(member_pairs(m), 0);
        assert(group_map(m).contains_key(m[0].peer_id));
    }
    if has_members(group_map(m)) {
        let p = choose|p: PeerId| group_map(m).contains_key(p);
        assert(has_key(member_pairs(m), p));
    }
}

fn insert_sorted(ids: &mut Vec<String>, id: String)
    requires
        sorted_strict(strings_view(old(ids)@)),
        !strings_view(old(ids)@).contains(id@),
    ensures
        sorted_strict(strings_view(final(ids)@)),
        strings_view(final(ids)@).to_set() == strings_view(old(ids)@).to_set().insert(id@),
{
    let ghost before = strings_view(ids@);
    let mut k: usize = 0;
    while k < ids.len() && str_lt(ids[k].as_str(), id.as_str())
        invariant
            k <= ids@.len(),
            ids@ == old(ids)@,
            before == strings_view(ids@),
            forall|j: int| 0 <= j < k ==> seq_lt(#[trigger] before[j], id@),
        decreases ids@.len() - k,
    {
        k = k + 1;
    }
    let ghost idv = id@;
    ids.insert(k, id);
    proof {
        let after = strings_view(ids@);
        assert(after =~= before.insert(k as int, idv));
        if k < before.len() {
            assert(!seq_lt(before[k as int], idv));
            assert(before[k as int] != idv) by {
                assert(before.contains(before[k as int]));
            }
            lemma_seq_lt_total(before[k as int], idv);
        }
        assert forall|a: int, b: int| 0 <= a < b < after.len() implies seq_lt(#[trigger] after[a], #[trigger] after[b]) by {
            if b < k {
                assert(after[a] == before[a] && after[b] == before[b]);
            } else if b == k {
                assert(after[a] == before[a] && after[b] == idv);
            } else if a < k {
                assert(after[a] == before[a] && after[b] == before[b - 1]);
                if b - 1 > k {
                    lemma_seq_lt_transitive(idv, before[k as int], before[b - 1]);
                }
                lemma_seq_lt_transitive(before[a], idv, before[b - 1]);
            } else if a == k {
                assert(after[a] == idv && after[b] == before[b - 1]);
                if b - 1 > k {
                    lemma_seq_lt_transitive(idv, before[k as int], before[b - 1]);
                }
            } else {
                assert(after[a] == before[a - 1] && after[b] == before[b - 1]);
            }
        }
        assert forall|x: Seq<char>| after.to_set().contains(x) == before.to_set().insert(idv).contains(x) by {
            if after.to_set().contains(x) {
                let j = choose|j: int| 0 <= j < after.len() && after[j] == x;
                if j < k {
                    assert(before[j] == x);
                } else if j > k {
                    assert(before[j - 1] == x);
                }
            }
            if before.to_set().contains(x) {
                let j = choose|j: int| 0 <= j < before.len() && before[j] == x;
                if j < k {
                    assert(after[j] == x);
                } else {
                    assert(after[j + 1] == x);
                }
            }
            if x == idv {
                assert(after[k as int] == x);
            }
        }
        assert(after.to_set() =~= before.to_set().insert(idv));
    }
}

impl SessionState {
    /// The connection ids that have a client socket, strictly sorted.
    pub fn collect_client_connection_ids(&self) -> (res: Vec<String>)
        requires
            self.wf(),
        ensures
            sorted_strict(strings_view(res@)),
            forall|x: Seq<char>|
                strings_view(res@).contains(x) <==> (self@.clients.contains_key(x) && has_members(
                    self@.clients[x],
                )),
            strings_view(res@) == sorted_list_of(active_ids(self@)),
    {
        let mut ids: Vec<String> = Vec::new();
        let ghost c = self.clients@;
        let mut i: usize = 0;
        while i < self.clients.len()
            invariant
                self.wf(),
                c == self.clients@,
                i <= c.len(),
                sorted_strict(strings_view(ids@)),
                forall|x: Seq<char>|
                    strings_view(ids@).to_set().contains(x) <==> exists|j: int|
                        0 <= j < i && (#[trigger] c[j]).0@ == x && c[j].1@.len() > 0,
            decreases c.len() - i,
        {
            if self.clients[i].1.len() > 0 {
                let key = self.clients[i].0.clone();
                proof {
                    if strings_view(ids@).contains(key@) {
                        assert(strings_view(ids@).to_set().contains(key@));
                        let j = choose|j: int| 0 <= j < i && (#[trigger] c[j]).0@ == key@ && c[j].1@.len() > 0;
                        assert(client_pairs(c)[j].0 == client_pairs(c)[i as int].0);
                    }
                }
                let ghost before = strings_view(ids@);
                insert_sorted(&mut ids, key);
                proof {
                    assert forall|x: Seq<char>|
                        strings_view(ids@).to_set().contains(x) <==> exists|j: int|
                            0 <= j < i + 1 && (#[trigger] c[j]).0@ == x && c[j].1@.len() > 0 by {
                        if x == key@ {
                            assert(c[i as int].0@ == x);
                        }
                        if exists|j: int| 0 <= j < i + 1 && (#[trigger] c[j]).0@ == x && c[j].1@.len() > 0 {
                            let j = choose|j: int| 0 <= j < i + 1 && (#[trigger] c[j]).0@ == x && c[j].1@.len() > 0;
                            if j < i {
                                assert(before.to_set().contains(x));
                            }
                        }
                    }
                }
            } else {
                proof {
                    assert forall|x: Seq<char>|
                        strings_view(ids@).to_set().contains(x) <==> exists|j: int|
                            0 <= j < i + 1 && (#[trigger] c[j]).0@ == x && c[j].1@.len() > 0 by {
                        if exists|j: int| 0 <= j < i + 1 && (#[trigger] c[j]).0@ == x && c[j].1@.len() > 0 {
                            let j = choose|j: int| 0 <= j < i + 1 && (#[trigger] c[j]).0@ == x && c[j].1@.len() > 0;
                            assert(j < i);
                        }
                    }
                }
            }
            i = i + 1;
        }
        proof {
            let v = self@;
            let pairs = client_pairs(c);
            lemma_assoc_facts(pairs);
            assert forall|x: Seq<char>| strings_view(ids@).to_set().contains(x) == active_ids(v).contains(x) by {
                if strings_view(ids@).to_set().contains(x) {
                    let j = choose|j: int| 0 <= j < c.len() && (#[trigger] c[j]).0@ == x && c[j].1@.len() > 0;
                    assert(pairs[j].0 == x);
                    lemma_has_members(c[j].1@);
                }
                if active_ids(v).contains(x) {
                    let j = choose|j: int| 0 <= j < pairs.len() && #[trigger] pairs[j].0 == x;
                    assert(pairs[j].0 == c[j].0@);
                    lemma_has_members(c[j].1@);
                }
            }
            let l = strings_view(ids@);
            assert(l.to_set() =~= active_ids(v));
            let w = sorted_list_of(active_ids(v));
            assert(sorted_strict(w) && w.to_set() == active_ids(v));
            lemma_sorted_unique(l, w);
            assert forall|x: Seq<char>|
                l.contains(x) <==> (v.clients.contains_key(x) && has_members(v.clients[x])) by {
                assert(l.to_set().contains(x) == l.contains(x));
            }
        }
        ids
    }
}

/// The close that a socket replaced by a newer one of the same identity receives.
pub open spec fn replaced_close() -> MessageView {
    MessageView::Close(1008, "Replaced by new connection"@)
}

/// The close sent to the previous holder of a slot, if any.
pub open spec fn close_previous(slot: Option<PeerMetaView>) -> Seq<(PeerId, MessageView)> {
    match slot {
        Some(e) => seq![(e.peer_id, replaced_close())],
        None => seq![],
    }
}

/// A message for the control socket, if there is one.
pub open spec fn to_control(v: SessionView, msg: MessageView) -> Seq<(PeerId, MessageView)> {
    match v.server_control {
        Some(c) => seq![(c.peer_id, msg)],
        None => seq![],
    }
}

pub open spec fn opt_get<K, V>(m: Map<K, V>, k: K) -> Option<V> {
    if m.contains_key(k) {
        Some(m[k])
    } else {
        None
    }
}

/// The frames, in order, forwarded to `peer`.
pub open spec fn flush_to(peer: PeerId, frames: Seq<FrameView>) -> Seq<(PeerId, MessageView)> {
    frames.map_values(|f: FrameView| (peer, frame_message(f)))
}

/// What a successful registration sends, and the connection id whose control
/// channel must be checked on later, if any.
pub struct Registration {
    pub deliveries: Vec<Delivery>,
    pub nudge: Option<String>,
}

pub open spec fn registration_view(r: Result<Registration, &'static str>) -> Result<
    (Seq<(PeerId, MessageView)>, Option<Seq<char>>),
    Seq<char>,
> {
    match r {
        Ok(reg) => Ok((deliveries_view(reg.deliveries@), crate::json::opt_chars(reg.nudge))),
        Err(e) => Err(e@),
    }
}

/// What registering the socket `m` with channel `tx` makes of the session `v`, and
/// what it answers: the messages sent and the connection id to check on, or the
/// reason of the refusal.
pub open spec fn register_outcome(v: SessionView, m: PeerMetaView, tx: Sender<OutboundMessage>) -> (
    SessionView,
    Result<(Seq<(PeerId, MessageView)>, Option<Seq<char>>), Seq<char>>,
) {
    if live_count(v) >= v.limits.max_sockets_per_session {
        (v, Err("Session socket limit exceeded"@))
    } else {
        let channels = v.channels.insert(m.peer_id, tx);
        match m.kind {
            PeerKindView::V1Server => (
                SessionView { v1_server: Some(m), channels, ..v },
                Ok((close_previous(v.v1_server), None)),
            ),
            PeerKindView::V1Client => (
                SessionView { v1_client: Some(m), channels, ..v },
                Ok((close_previous(v.v1_client), None)),
            ),
            PeerKindView::V2ServerControl => (
                SessionView { server_control: Some(m), channels, ..v },
                Ok(
                    (
                        close_previous(v.server_control).push(
                            (m.peer_id, MessageView::Text(sync_text(sorted_list_of(active_ids(v))))),
                        ),
                        None,
                    ),
                ),
            ),
            PeerKindView::V2ServerData(id) => (
                SessionView {
                    server_data: v.server_data.insert(id, m),
                    pending: v.pending.remove(id),
                    channels,
                    ..v
                },
                Ok(
                    (
                        close_previous(opt_get(v.server_data, id)) + flush_to(
                            m.peer_id,
                            pending_of(v, id),
                        ),
                        None,
                    ),
                ),
            ),
            PeerKindView::V2Client(id) => {
                let group = group_of(v, id);
                if group.dom().len() >= v.limits.max_clients_per_connection {
                    (
                        SessionView { clients: v.clients.insert(id, group), ..v },
                        Err("Client connection limit exceeded"@),
                    )
                } else {
                    (
                        SessionView {
                            clients: v.clients.insert(id, group.insert(m.peer_id, m)),
                            client_count: v.client_count + if group.contains_key(m.peer_id) {
                                0nat
                            } else {
                                1nat
                            },
                            channels,
                            ..v
                        },
                        Ok((to_control(v, MessageView::Text(connected_text(id))), Some(id))),
                    )
                }
            },
        }
    }
}

/// The identity slot a socket takes, with its connection id.
enum Slot {
    V1Server,
    V1Client,
    Control,
    ServerData(String),
    Client(String),
}

fn slot_of(kind: &PeerKind) -> (res: Slot)
    ensures
        match res {
            Slot::V1Server => kind@ == PeerKindView::V1Server,
            Slot::V1Client => kind@ == PeerKindView::V1Client,
            Slot::Control => kind@ == PeerKindView::V2ServerControl,
            Slot::ServerData(id) => kind@ == PeerKindView::V2ServerData(id@),
            Slot::Client(id) => kind@ == PeerKindView::V2Client(id@),
        },
{
    match kind {
        PeerKind::V1Server => Slot::V1Server,
        PeerKind::V1Client => Slot::V1Client,
        PeerKind::V2ServerControl => Slot::Control,
        PeerKind::V2ServerData { connection_id } => Slot::ServerData(connection_id.clone()),
        PeerKind::V2Client { connection_id } => Slot::Client(connection_id.clone()),
    }
}

fn find_member(members: &Vec<PeerMeta>, peer: PeerId) -> (res: Option<usize>)
    requires
        unique_keys(member_pairs(members@)),
    ensures
        match res {
            Some(j) => j < members@.len() && members@[j as int].peer_id == peer
                && group_map(members@).contains_key(peer),
            None => !group_map(members@).contains_key(peer),
        },
{
    let mut j: usize = 0;
    while j < members.len()
        invariant
            unique_keys(member_pairs(members@)),
            j <= members@.len(),
            forall|k: int| 0 <= k < j ==> members@[k].peer_id != peer,
        decreases members@.len() - j,
    {
        if members[j].peer_id == peer {
            proof {
                crate::assoc::lemma_assoc_index(member_pairs(members@), j as int);
            }
            return Some(j);
        }
        j = j + 1;
    }
    proof {
        let p = member_pairs(members@);
        if has_key(p, peer) {
            let k = choose|k: int| 0 <= k < p.len() && #[trigger] p[k].0 == peer;
            assert(p[k].0 == members@[k].peer_id);
        }
    }
    None
}

impl SessionState {
    fn attach(&mut self, peer: PeerId, tx: Sender<OutboundMessage>)
        requires
            old(self).wf(),
        ensures
            final(self).wf(),
            final(self)@ == (SessionView { channels: old(self)@.channels.insert(peer, tx), ..old(self)@ }),
    {
        let ghost before = self.channels@;
        match self.find_channel(peer) {
            Some(i) => {
                let _ = self.channels.remove(i);
                proof {
                    lemma_assoc_remove(before, i as int);
                }
            },
            None => {},
        }
        let ghost mid = self.channels@;
        self.channels.push((peer, tx));
        proof {
            assert(!assoc_map(mid).contains_key(peer));
            lemma_assoc_push(mid, peer, tx);
            assert(assoc_map(self.channels@) =~= assoc_map(before).insert(peer, tx));
        }
    }
}

proof fn lemma_server_data_pairs_remove(v: Seq<(String, PeerMeta)>, i: int)
    requires
        0 <= i < v.len(),
    ensures
        server_data_pairs(v.remove(i)) == server_data_pairs(v).remove(i),
{
    assert(server_data_pairs(v.remove(i)) =~= server_data_pairs(v).remove(i));
}

proof fn lemma_server_data_pairs_push(v: Seq<(String, PeerMeta)>, x: (String, PeerMeta))
    ensures
        server_data_pairs(v.push(x)) == server_data_pairs(v).push((x.0@, x.1@)),
{
    assert(server_data_pairs(v.push(x)) =~= server_data_pairs(v).push((x.0@, x.1@)));
}

proof fn lemma_client_pairs_remove(v: Seq<(String, Vec<PeerMeta>)>, i: int)
    requires
        0 <= i < v.len(),
    ensures
        client_pairs(v.remove(i)) == client_pairs(v).remove(i),
{
    assert(client_pairs(v.remove(i)) =~= client_pairs(v).remove(i));
}

proof fn lemma_client_pairs_push(v: Seq<(String, Vec<PeerMeta>)>, x: (String, Vec<PeerMeta>))
    ensures
        client_pairs(v.push(x)) == client_pairs(v).push((x.0@, group_map(x.1@))),
{
    assert(client_pairs(v.push(x)) =~= client_pairs(v).push((x.0@, group_map(x.1@))));
}

proof fn lemma_pending_pairs_remove(v: Seq<(String, VecDeque<RelayFrame>)>, i: int)
    requires
        0 <= i < v.len(),
    ensures
        pending_pairs(v.remove(i)) == pending_pairs(v).remove(i),
{
    assert(pending_pairs(v.remove(i)) =~= pending_pairs(v).remove(i));
}

proof fn lemma_pending_pairs_push(v: Seq<(String, VecDeque<RelayFrame>)>, x: (String, VecDeque<RelayFrame>))
    ensures
        pending_pairs(v.push(x)) == pending_pairs(v).push((x.0@, frames_view(x.1@))),
{
    assert(pending_pairs(v.push(x)) =~= pending_pairs(v).push((x.0@, frames_view(x.1@))));
}

proof fn lemma_member_pairs_remove(v: Seq<PeerMeta>, i: int)
    requires
        0 <= i < v.len(),
    ensures
        member_pairs(v.remove(i)) == member_pairs(v).remove(i),
{
    assert(member_pairs(v.remove(i)) =~= member_pairs(v).remove(i));
}

proof fn lemma_member_pairs_push(v: Seq<PeerMeta>, x: PeerMeta)
    ensures
        member_pairs(v.push(x)) == member_pairs(v).push((x.peer_id, x@)),
{
    assert(member_pairs(v.push(x)) =~= member_pairs(v).push((x.peer_id, x@)));
}

proof fn lemma_group_map_empty()
    ensures
        group_map(Seq::<PeerMeta>::empty()) == Map::<PeerId, PeerMetaView>::empty(),
        unique_keys(member_pairs(Seq::<PeerMeta>::empty())),
{
    assert(member_pairs(Seq::<PeerMeta>::empty()) =~= Seq::empty());
    lemma_assoc_empty::<PeerId, PeerMetaView>();
}

impl SessionState {
    /// Takes `meta` as the server data socket of `id`, closes the one it replaces,
    /// and forwards the frames that waited for it.
    fn register_server_data(&mut self, id: String, meta: PeerMeta) -> (res: Vec<Delivery>)
        requires
            old(self).wf(),
            live_count(old(self)@) < old(self).limits.max_sockets_per_session,
            meta.kind@ == PeerKindView::V2ServerData(id@),
        ensures
            final(self).wf(),
            final(self)@ == (SessionView {
                server_data: old(self)@.server_data.insert(id@, meta@),
                pending: old(self)@.pending.remove(id@),
                ..old(self)@
            }),
            deliveries_view(res@) == close_previous(opt_get(old(self)@.server_data, id@)) + flush_to(
                meta.peer_id,
                pending_of(old(self)@, id@),
            ),
    {
        let ghost v0 = self@;
        let ghost sd0 = self.server_data@;
        let mut out: Vec<Delivery> = Vec::new();
        proof {
            lemma_assoc_dom(server_data_pairs(sd0));
        }
        match self.find_server_data(id.as_str()) {
            Some(i) => {
                let (_, prev) = self.server_data.remove(i);
                proof {
                    lemma_server_data_pairs_remove(sd0, i as int);
                    lemma_assoc_remove(server_data_pairs(sd0), i as int);
                }
                out.push(Delivery { peer: prev.peer_id, message: close_message(1008, "Replaced by new connection") });
            },
            None => {},
        }
        let ghost sd1 = self.server_data@;
        let peer = meta.peer_id;
        let ghost mv = meta@;
        self.server_data.push((id.clone(), meta));
        proof {
            assert(assoc_map(server_data_pairs(sd1)) == v0.server_data.remove(id@));
            lemma_server_data_pairs_push(sd1, self.server_data@.last());
            lemma_assoc_push(server_data_pairs(sd1), id@, mv);
            assert(assoc_map(server_data_pairs(self.server_data@)) =~= v0.server_data.insert(id@, mv));
            lemma_assoc_dom(server_data_pairs(self.server_data@));
            assert(out@.len() > 0 ==> v0.server_data.contains_key(id@));
            assert(deliveries_view(out@) =~= close_previous(opt_get(v0.server_data, id@)));
        }
        let ghost pend0 = self.pending@;
        match self.find_pending(id.as_str()) {
            Some(j) => {
                let (_, mut queue) = self.pending.remove(j);
                proof {
                    lemma_pending_pairs_remove(pend0, j as int);
                    lemma_assoc_remove(pending_pairs(pend0), j as int);
                }
                let ghost orig = frames_view(queue@);
                let ghost base = deliveries_view(out@);
                while queue.len() > 0
                    invariant
                        orig.len() >= queue@.len(),
                        frames_view(queue@) == orig.subrange(orig.len() - queue@.len(), orig.len() as int),
                        deliveries_view(out@) == base + flush_to(peer, orig.subrange(0, orig.len() - queue@.len())),
                    decreases queue@.len(),
                {
                    let ghost q0 = queue@;
                    let ghost out0 = out@;
                    let frame = queue.pop_front().unwrap();
                    proof {
                        let k = orig.len() - q0.len();
                        assert(frames_view(queue@) =~= frames_view(q0).drop_first());
                        assert(frame == q0[0]);
                        assert(frames_view(q0)[0] == q0[0]@);
                        assert(orig.subrange(k, orig.len() as int)[0] == orig[k]);
                        assert(frame@ == orig[k]);
                    }
                    out.push(Delivery { peer, message: forward_message(frame) });
                    proof {
                        let k = orig.len() - q0.len();
                        assert(orig.subrange(0, k + 1) =~= orig.subrange(0, k).push(orig[k]));
                        assert(flush_to(peer, orig.subrange(0, k + 1)) =~= flush_to(peer, orig.subrange(0, k)).push((peer, frame_message(orig[k]))));
                        assert(deliveries_view(out@) =~= deliveries_view(out0).push((peer, frame_message(orig[k]))));
                        assert(frames_view(queue@) =~= orig.subrange(orig.len() - queue@.len(), orig.len() as int));
                    }
                }
                proof {
                    assert(orig.subrange(0, orig.len() as int) =~= orig);
                }
            },
            None => {
                proof {
                    assert(v0.pending.remove(id@) =~= v0.pending);
                    assert(flush_to(peer, Seq::<FrameView>::empty()) =~= Seq::empty());
                    assert(deliveries_view(out@) + Seq::<(PeerId, MessageView)>::empty() =~= deliveries_view(out@));
                }
            },
        }
        proof {
            assert(assoc_map(pending_pairs(self.pending@)) =~= v0.pending.remove(id@));
            assert(self@ =~= (SessionView {
                server_data: v0.server_data.insert(id@, mv),
                pending: v0.pending.remove(id@),
                ..v0
            }));
        }
        out
    }
}

impl SessionState {
    /// Adds `meta` to the client sockets of `id`, unless that connection id already
    /// has as many as the limit allows, and tells the control socket.
    fn register_client(&mut self, id: String, meta: PeerMeta) -> (res: Result<Vec<Delivery>, &'static str>)
        requires
            old(self).wf(),
            live_count(old(self)@) < old(self).limits.max_sockets_per_session,
            meta.kind@ == PeerKindView::V2Client(id@),
        ensures
            final(self).wf(),
            ({
                let v = old(self)@;
                let group = group_of(v, id@);
                if group.dom().len() >= v.limits.max_clients_per_connection {
                    &&& res is Err
                    &&& res->Err_0@ == "Client connection limit exceeded"@
                    &&& final(self)@ == (SessionView { clients: v.clients.insert(id@, group), ..v })
                } else {
                    &&& res is Ok
                    &&& deliveries_view(res->Ok_0@) == to_control(v, MessageView::Text(connected_text(id@)))
                    &&& final(self)@ == (SessionView {
                        clients: v.clients.insert(id@, group.insert(meta.peer_id, meta@)),
                        client_count: v.client_count + if group.contains_key(meta.peer_id) {
                            0nat
                        } else {
                            1nat
                        },
                        ..v
                    })
                }
            }),
    {
        let ghost v0 = self@;
        let ghost c0 = self.clients@;
        let (key, mut members) = match self.find_group(id.as_str()) {
            Some(i) => {
                let entry = self.clients.remove(i);
                proof {
                    lemma_client_pairs_remove(c0, i as int);
                    lemma_assoc_remove(client_pairs(c0), i as int);
                    lemma_client_sum_remove(c0, i as int);
                    lemma_group_unique(c0, i as int);
                }
                entry
            },
            None => {
                proof {
                    lemma_group_map_empty();
                }
                (id.clone(), Vec::new())
            },
        };
        let ghost c1 = self.clients@;
        let ghost group = group_of(v0, id@);
        proof {
            assert(group_map(members@) == group);
            assert(unique_keys(client_pairs(c1)));
            assert(assoc_map(client_pairs(c1)) == v0.clients.remove(id@));
            assert(client_sum(c1) + members@.len() == client_sum(c0));
            assert(key@ == id@);
            lemma_assoc_dom(member_pairs(members@));
            assert(!assoc_map(client_pairs(c1)).contains_key(id@));
        }
        if members.len() >= self.limits.max_clients_per_connection {
            let ghost entry = (key, members);
            self.clients.push((key, members));
            proof {
                lemma_client_pairs_push(c1, entry);
                lemma_assoc_push(client_pairs(c1), id@, group);
                lemma_client_sum_push(c1, entry);
                assert(assoc_map(client_pairs(self.clients@)) =~= v0.clients.insert(id@, group));
                assert(self@ =~= (SessionView { clients: v0.clients.insert(id@, group), ..v0 }));
            }
            return Err("Client connection limit exceeded");
        }
        let peer = meta.peer_id;
        let ghost mv = meta@;
        let ghost m0 = members@;
        match find_member(&members, peer) {
            Some(j) => {
                let _ = members.remove(j);
                proof {
                    lemma_member_pairs_remove(m0, j as int);
                    lemma_assoc_remove(member_pairs(m0), j as int);
                }
            },
            None => {},
        }
        let ghost m1 = members@;
        members.push(meta);
        proof {
            lemma_member_pairs_push(m1, members@.last());
            lemma_assoc_push(member_pairs(m1), peer, mv);
            assert(group_map(members@) =~= group.insert(peer, mv));
            lemma_assoc_dom(member_pairs(members@));
            assert(members@.len() == m0.len() + if group.contains_key(peer) { 0int } else { 1int });
        }
        let ghost entry = (key, members);
        self.clients.push((key, members));
        proof {
            lemma_client_pairs_push(c1, entry);
            lemma_assoc_push(client_pairs(c1), id@, group.insert(peer, mv));
            lemma_client_sum_push(c1, entry);
            assert(assoc_map(client_pairs(self.clients@)) =~= v0.clients.insert(id@, group.insert(peer, mv)));
            assert(self@ =~= (SessionView {
                clients: v0.clients.insert(id@, group.insert(peer, mv)),
                client_count: v0.client_count + if group.contains_key(peer) { 0nat } else { 1nat },
                ..v0
            }));
        }
        let mut out: Vec<Delivery> = Vec::new();
        match &self.server_control {
            Some(control) => {
                out.push(Delivery { peer: control.peer_id, message: OutboundMessage::Text(connected_message(id.as_str())) });
            },
            None => {},
        }
        proof {
            assert(deliveries_view(out@) =~= to_control(v0, MessageView::Text(connected_text(id@))));
        }
        Ok(out)
    }

}

impl SessionState {
    /// Admits an accepted socket into the session, in the slot its kind names. A
    /// socket of the same identity that it replaces is told to close; a new control
    /// socket is sent the connection ids that have clients; a new server data socket
    /// receives the frames that waited for it; a new client is announced to the
    /// control socket. The socket is refused when the session routes as many sockets
    /// as its limit allows, or its connection id as many clients.
    pub fn register(&mut self, handle: PeerHandle) -> (res: Result<Registration, &'static str>)
        requires
            old(self).wf(),
        ensures
            final(self).wf(),
            (final(self)@, registration_view(res)) == register_outcome(
                old(self)@,
                handle.meta@,
                handle.tx,
            ),
            sorted_strict(sorted_list_of(active_ids(old(self)@))),
            sorted_list_of(active_ids(old(self)@)).to_set() == active_ids(old(self)@),
    {
        proof {
            self.lemma_wf_bounds();
            lemma_sorted_list_of(active_ids(self@));
        }
        if self.count_live_sockets() >= self.limits.max_sockets_per_session {
            return Err("Session socket limit exceeded");
        }
        let ghost v0 = self@;
        let PeerHandle { meta, tx } = handle;
        let peer = meta.peer_id;
        let ghost mv = meta@;
        let slot = slot_of(&meta.kind);
        let mut deliveries: Vec<Delivery> = Vec::new();
        let mut nudge: Option<String> = None;
        match slot {
            Slot::V1Server => {
                match self.v1_server.take() {
                    Some(prev) => {
                        deliveries.push(Delivery { peer: prev.peer_id, message: close_message(1008, "Replaced by new connection") });
                    },
                    None => {},
                }
                self.v1_server = Some(meta);
                proof {
                    assert(deliveries_view(deliveries@) =~= close_previous(v0.v1_server));
                    assert(self@ =~= (SessionView { v1_server: Some(mv), ..v0 }));
                }
            },
            Slot::V1Client => {
                match self.v1_client.take() {
                    Some(prev) => {
                        deliveries.push(Delivery { peer: prev.peer_id, message: close_message(1008, "Replaced by new connection") });
                    },
                    None => {},
                }
                self.v1_client = Some(meta);
                proof {
                    assert(deliveries_view(deliveries@) =~= close_previous(v0.v1_client));
                    assert(self@ =~= (SessionView { v1_client: Some(mv), ..v0 }));
                }
            },
            Slot::Control => {
                match self.server_control.take() {
                    Some(prev) => {
                        deliveries.push(Delivery { peer: prev.peer_id, message: close_message(1008, "Replaced by new connection") });
                    },
                    None => {},
                }
                self.server_control = Some(meta);
                proof {
                    assert(deliveries_view(deliveries@) =~= close_previous(v0.server_control));
                    assert(self@ =~= (SessionView { server_control: Some(mv), ..v0 }));
                    assert(active_ids(self@) =~= active_ids(v0));
                }
                let ids = self.collect_client_connection_ids();
                let ghost d0 = deliveries@;
                deliveries.push(Delivery { peer, message: OutboundMessage::Text(sync_message(&ids)) });
                proof {
                    assert(deliveries_view(deliveries@) =~= deliveries_view(d0).push(
                        (peer, MessageView::Text(sync_text(sorted_list_of(active_ids(v0))))),
                    ));
                }
            },
            Slot::ServerData(id) => {
                deliveries = self.register_server_data(id, meta);
            },
            Slot::Client(id) => {
                match self.register_client(id.clone(), meta) {
                    Ok(d) => {
                        deliveries = d;
                        nudge = Some(id);
                    },
                    Err(e) => {
                        return Err(e);
                    },
                }
            },
        }
        let ghost v1 = self@;
        self.attach(peer, tx);
        proof {
            assert(self@ == (SessionView { channels: v1.channels.insert(peer, tx), ..v1 }));
        }
        Ok(Registration { deliveries, nudge })
    }
}

/// `q` with `f` appended, keeping only the latest `PENDING_FRAME_LIMIT` frames.
pub open spec fn bounded_push(q: Seq<FrameView>, f: FrameView) -> Seq<FrameView> {
    let p = q.push(f);
    if p.len() > PENDING_FRAME_LIMIT {
        p.subrange(p.len() - PENDING_FRAME_LIMIT, p.len() as int)
    } else {
        p
    }
}

/// `d` sends `msg` once to each socket of `group`, and to nothing else, in some order.
pub open spec fn fans_out(d: Seq<(PeerId, MessageView)>, group: Map<PeerId, PeerMetaView>, msg: MessageView) -> bool {
    &&& forall|i: int| 0 <= i < d.len() ==> group.contains_key(#[trigger] d[i].0) && d[i].1 == msg
    &&& forall|i: int, j: int| 0 <= i < d.len() && 0 <= j < d.len() && i != j ==> #[trigger] d[i].0 != #[trigger] d[j].0
    &&& forall|p: PeerId| #[trigger] group.contains_key(p) ==> exists|i: int| 0 <= i < d.len() && d[i].0 == p
}

/// Forwards a frame to the holder of a slot, if any.
pub open spec fn forward_to(slot: Option<PeerMetaView>, f: FrameView) -> Seq<(PeerId, MessageView)> {
    match slot {
        Some(t) => seq![(t.peer_id, frame_message(f))],
        None => seq![],
    }
}

/// The answer to a text from the control socket `m`: a pong when the text is a
/// ping and `m` is the current control socket.
pub open spec fn control_answer(v: SessionView, m: PeerMetaView, f: FrameView, now_ms: u64) -> Seq<(PeerId, MessageView)> {
    match f {
        FrameView::Text(t) => match v.server_control {
            Some(c) => if is_ping_text(t) && c.peer_id == m.peer_id {
                seq![(c.peer_id, MessageView::Text(pong_text(now_ms)))]
            } else {
                seq![]
            },
            None => seq![],
        },
        FrameView::Binary(_) => seq![],
    }
}

/// What a frame `f` from the socket `m` does to the session `v`: `v2` is the session
/// after it and `d` the messages it sends.
pub open spec fn frame_step(
    v: SessionView,
    v2: SessionView,
    m: PeerMetaView,
    f: FrameView,
    now_ms: u64,
    d: Seq<(PeerId, MessageView)>,
) -> bool {
    match (m.version, m.kind) {
        (RelayVersion::V1, PeerKindView::V1Server) => v2 == v && d == forward_to(v.v1_client, f),
        (RelayVersion::V1, PeerKindView::V1Client) => v2 == v && d == forward_to(v.v1_server, f),
        (RelayVersion::V2, PeerKindView::V2ServerControl) => v2 == v && d == control_answer(v, m, f, now_ms),
        (RelayVersion::V2, PeerKindView::V2Client(id)) => if v.server_data.contains_key(id) {
            v2 == v && d == seq![(v.server_data[id].peer_id, frame_message(f))]
        } else {
            v2 == (SessionView { pending: v.pending.insert(id, bounded_push(pending_of(v, id), f)), ..v })
                && d == Seq::<(PeerId, MessageView)>::empty()
        },
        (RelayVersion::V2, PeerKindView::V2ServerData(id)) => v2 == v && fans_out(d, group_of(v, id), frame_message(f)),
        _ => v2 == v && d == Seq::<(PeerId, MessageView)>::empty(),
    }
}

impl SessionState {
    /// Keeps a client frame for `id` until its server data socket arrives, dropping
    /// the oldest beyond `PENDING_FRAME_LIMIT`.
    pub fn buffer_pending(&mut self, id: &str, frame: RelayFrame)
        requires
            old(self).wf(),
        ensures
            final(self).wf(),
            final(self)@ == (SessionView {
                pending: old(self)@.pending.insert(id@, bounded_push(pending_of(old(self)@, id@), frame@)),
                ..old(self)@
            }),
    {
        let ghost v0 = self@;
        let ghost p0 = self.pending@;
        let (key, mut queue) = match self.find_pending(id) {
            Some(j) => {
                let entry = self.pending.remove(j);
                proof {
                    lemma_pending_pairs_remove(p0, j as int);
                    lemma_assoc_remove(pending_pairs(p0), j as int);
                }
                entry
            },
            None => {
                let q: VecDeque<RelayFrame> = VecDeque::new();
                proof {
                    assert(frames_view(q@) =~= Seq::<FrameView>::empty());
                }
                (String::from_str(id), q)
            },
        };
        let ghost p1 = self.pending@;
        let ghost q0 = frames_view(queue@);
        let ghost fv = frame@;
        proof {
            assert(q0 == pending_of(v0, id@));
            assert(assoc_map(pending_pairs(p1)) == v0.pending.remove(id@));
            assert(q0.len() <= PENDING_FRAME_LIMIT);
        }
        queue.push_back(frame);
        proof {
            assert(frames_view(queue@) =~= q0.push(fv));
        }
        while queue.len() > PENDING_FRAME_LIMIT
            invariant
                queue@.len() <= PENDING_FRAME_LIMIT + 1,
                frames_view(queue@) == (if queue@.len() > PENDING_FRAME_LIMIT { q0.push(fv) } else { bounded_push(q0, fv) }),
            decreases queue@.len(),
        {
            let ghost before = queue@;
            let _ = queue.pop_front();
            proof {
                assert(frames_view(queue@) =~= frames_view(before).subrange(1, before.len() as int));
                assert(frames_view(queue@) =~= bounded_push(q0, fv));
            }
        }
        let ghost entry = (key, queue);
        self.pending.push((key, queue));
        proof {
            lemma_pending_pairs_push(p1, entry);
            assert(!assoc_map(pending_pairs(p1)).contains_key(id@));
            lemma_assoc_push(pending_pairs(p1), id@, bounded_push(q0, fv));
            assert(assoc_map(pending_pairs(self.pending@)) =~= v0.pending.insert(id@, bounded_push(q0, fv)));
            assert(self@ =~= (SessionView { pending: v0.pending.insert(id@, bounded_push(q0, fv)), ..v0 }));
        }
    }

    /// The same message, once, for each client socket of `id`.
    fn to_clients(&self, id: &str, message: &OutboundMessage) -> (res: Vec<Delivery>)
        requires
            self.wf(),
        ensures
            fans_out(deliveries_view(res@), group_of(self@, id@), message@),
    {
        let mut out: Vec<Delivery> = Vec::new();
        match self.find_group(id) {
            Some(gi) => {
                let members = &self.clients[gi].1;
                let ghost mp = member_pairs(members@);
                proof {
                    lemma_group_unique(self.clients@, gi as int);
                    lemma_assoc_facts(mp);
                }
                let mut k: usize = 0;
                while k < members.len()
                    invariant
                        unique_keys(mp),
                        mp == member_pairs(members@),
                        k <= members@.len(),
                        deliveries_view(out@).len() == k,
                        forall|i: int| 0 <= i < k ==> (#[trigger] deliveries_view(out@)[i]) == (mp[i].0, message@),
                    decreases members@.len() - k,
                {
                    let ghost out0 = out@;
                    out.push(Delivery { peer: members[k].peer_id, message: clone_message(message) });
                    proof {
                        assert(deliveries_view(out@) =~= deliveries_view(out0).push((mp[k as int].0, message@)));
                    }
                    k = k + 1;
                }
                proof {
                    let d = deliveries_view(out@);
                    let g = group_map(members@);
                    assert(g == group_of(self@, id@));
                    assert forall|i: int| 0 <= i < d.len() implies g.contains_key(#[trigger] d[i].0) && d[i].1 == message@ by {
                        assert(d[i] == (mp[i].0, message@));
                    }
                    assert forall|i: int, j: int| 0 <= i < d.len() && 0 <= j < d.len() && i != j implies #[trigger] d[i].0 != #[trigger] d[j].0 by {
                        assert(d[i] == (mp[i].0, message@));
                        assert(d[j] == (mp[j].0, message@));
                    }
                    assert forall|p: PeerId| #[trigger] g.contains_key(p) implies exists|i: int| 0 <= i < d.len() && d[i].0 == p by {
                        let i = choose|i: int| 0 <= i < mp.len() && #[trigger] mp[i].0 == p;
                        assert(d[i] == (mp[i].0, message@));
                    }
                }
            },
            None => {},
        }
        out
    }

    /// Routes a frame that the socket `meta` sent: between the version 1 server and
    /// client; a ping on the control socket is answered with a pong stamped `now_ms`;
    /// a client frame goes to the server data socket of its connection id, or waits
    /// for it; a server data frame goes to every client of its connection id.
    pub fn handle_frame(&mut self, meta: &PeerMeta, frame: RelayFrame, now_ms: u64) -> (res: Vec<Delivery>)
        requires
            old(self).wf(),
        ensures
            final(self).wf(),
            frame_step(old(self)@, final(self)@, meta@, frame@, now_ms, deliveries_view(res@)),
    {
        let ghost v0 = self@;
        let mut out: Vec<Delivery> = Vec::new();
        let slot = slot_of(&meta.kind);
        match slot {
            Slot::V1Server => {
                if meta.version == RelayVersion::V1 {
                    match &self.v1_client {
                        Some(target) => {
                            out.push(Delivery { peer: target.peer_id, message: forward_message(frame) });
                        },
                        None => {},
                    }
                }
            },
            Slot::V1Client => {
                if meta.version == RelayVersion::V1 {
                    match &self.v1_server {
                        Some(target) => {
                            out.push(Delivery { peer: target.peer_id, message: forward_message(frame) });
                        },
                        None => {},
                    }
                }
            },
            Slot::Control => {
                if meta.version == RelayVersion::V2 {
                    match &frame {
                        RelayFrame::Text(text) => {
                            if text_is_ping(text.as_str()) {
                                let pong = pong_message(now_ms);
                                match &self.server_control {
                                    Some(control) => {
                                        if control.peer_id == meta.peer_id {
                                            out.push(Delivery { peer: control.peer_id, message: OutboundMessage::Text(pong) });
                                        }
                                    },
                                    None => {},
                                }
                            }
                        },
                        RelayFrame::Binary(_) => {},
                    }
                }
            },
            Slot::Client(id) => {
                if meta.version == RelayVersion::V2 {
                    match self.find_server_data(id.as_str()) {
                        Some(i) => {
                            out.push(Delivery { peer: self.server_data[i].1.peer_id, message: forward_message(frame) });
                        },
                        None => {
                            self.buffer_pending(id.as_str(), frame);
                        },
                    }
                }
            },
            Slot::ServerData(id) => {
                if meta.version == RelayVersion::V2 {
                    let message = forward_message(frame);
                    out = self.to_clients(id.as_str(), &message);
                }
            },
        }
        proof {
            let d = deliveries_view(out@);
            match (meta@.version, meta@.kind) {
                (RelayVersion::V1, PeerKindView::V1Server) => {
                    assert(d =~= forward_to(v0.v1_client, frame@));
                },
                (RelayVersion::V1, PeerKindView::V1Client) => {
                    assert(d =~= forward_to(v0.v1_server, frame@));
                },
                (RelayVersion::V2, PeerKindView::V2ServerControl) => {
                    assert(d =~= control_answer(v0, meta@, frame@, now_ms));
                },
                (RelayVersion::V2, PeerKindView::V2Client(id)) => {
                    if v0.server_data.contains_key(id) {
                        assert(d =~= seq![(v0.server_data[id].peer_id, frame_message(frame@))]);
                    } else {
                        assert(d =~= Seq::<(PeerId, MessageView)>::empty());
                    }
                },
                (RelayVersion::V2, PeerKindView::V2ServerData(id)) => {},
                _ => {
                    assert(d =~= Seq::<(PeerId, MessageView)>::empty());
                },
            }
        }
        out
    }
}

pub fn clone_message(m: &OutboundMessage) -> (res: OutboundMessage)
    ensures
        res@ == m@,
{
    match m {
        OutboundMessage::Text(s) => OutboundMessage::Text(s.clone()),
        OutboundMessage::Binary(b) => OutboundMessage::Binary(clone_bytes(b)),
        OutboundMessage::Pong(b) => OutboundMessage::Pong(clone_bytes(b)),
        OutboundMessage::Close { code, reason } => OutboundMessage::Close { code: *code, reason: reason.clone() },
    }
}

/// The socket that answers a ping from `m`: whichever socket holds the slot of
/// `m`'s kind, or, for a client, `m` itself if it is still among the clients.
pub open spec fn ping_target(v: SessionView, m: PeerMetaView) -> Option<PeerMetaView> {
    match m.kind {
        PeerKindView::V1Server => v.v1_server,
        PeerKindView::V1Client => v.v1_client,
        PeerKindView::V2ServerControl => v.server_control,
        PeerKindView::V2ServerData(id) => opt_get(v.server_data, id),
        PeerKindView::V2Client(id) => opt_get(group_of(v, id), m.peer_id),
    }
}

/// The slot without `p`, if `p` held it.
pub open spec fn clear_if_same(slot: Option<PeerMetaView>, p: PeerId) -> Option<PeerMetaView> {
    match slot {
        Some(h) => if h.peer_id == p {
            None
        } else {
            slot
        },
        None => None,
    }
}

/// The close of the server data socket of a connection whose last client left.
pub open spec fn client_gone_close() -> MessageView {
    MessageView::Close(1001, "Client disconnected"@)
}

/// The close of the clients of a connection whose server data socket left.
pub open spec fn server_gone_close() -> MessageView {
    MessageView::Close(1012, "Server disconnected"@)
}

pub open spec fn close_slot(slot: Option<PeerMetaView>, msg: MessageView) -> Seq<(PeerId, MessageView)> {
    match slot {
        Some(t) => seq![(t.peer_id, msg)],
        None => seq![],
    }
}

/// What the departure of the socket `m` does to the session `v`: `v2` is the session
/// after it and `d` the messages it sends.
pub open spec fn unregister_step(v: SessionView, v2: SessionView, m: PeerMetaView, d: Seq<(PeerId, MessageView)>) -> bool {
    let base = SessionView { channels: v.channels.remove(m.peer_id), ..v };
    match m.kind {
        PeerKindView::V1Server => v2 == (SessionView { v1_server: clear_if_same(v.v1_server, m.peer_id), ..base })
            && d == Seq::<(PeerId, MessageView)>::empty(),
        PeerKindView::V1Client => v2 == (SessionView { v1_client: clear_if_same(v.v1_client, m.peer_id), ..base })
            && d == Seq::<(PeerId, MessageView)>::empty(),
        PeerKindView::V2ServerControl => v2 == (SessionView {
            server_control: clear_if_same(v.server_control, m.peer_id),
            ..base
        }) && d == Seq::<(PeerId, MessageView)>::empty(),
        PeerKindView::V2Client(id) => if !v.clients.contains_key(id) {
            v2 == base && d == Seq::<(PeerId, MessageView)>::empty()
        } else {
            let rest = v.clients[id].remove(m.peer_id);
            let count = (v.client_count - if v.clients[id].contains_key(m.peer_id) { 1int } else { 0int }) as nat;
            if has_members(rest) {
                v2 == (SessionView { clients: v.clients.insert(id, rest), client_count: count, ..base })
                    && d == Seq::<(PeerId, MessageView)>::empty()
            } else {
                v2 == (SessionView {
                    clients: v.clients.remove(id),
                    client_count: count,
                    pending: v.pending.remove(id),
                    server_data: v.server_data.remove(id),
                    ..base
                }) && d == close_slot(opt_get(v.server_data, id), client_gone_close()) + to_control(
                    v,
                    MessageView::Text(disconnected_text(id)),
                )
            }
        },
        PeerKindView::V2ServerData(id) => v2 == (SessionView {
            server_data: if v.server_data.contains_key(id) && v.server_data[id].peer_id == m.peer_id {
                v.server_data.remove(id)
            } else {
                v.server_data
            },
            ..base
        }) && fans_out(d, group_of(v, id), server_gone_close()),
    }
}

/// Which check of the control channel a pending client is due.
pub enum NudgeStep {
    /// The first delay passed: remind the control socket of the connection ids.
    First,
    /// The second delay passed too: the control socket is taken as unresponsive.
    Final,
}

/// A client of `id` still waits for its server data socket.
pub open spec fn nudge_wanted(v: SessionView, id: Seq<char>) -> bool {
    v.clients.contains_key(id) && has_members(v.clients[id]) && !v.server_data.contains_key(id)
}

pub open spec fn opt_deliveries_view(r: Option<Vec<Delivery>>) -> Option<Seq<(PeerId, MessageView)>> {
    match r {
        Some(d) => Some(deliveries_view(d@)),
        None => None,
    }
}

impl SessionState {
    /// Answers a ping from the socket `meta` with a pong carrying `payload`.
    pub fn handle_ping(&self, meta: &PeerMeta, payload: Vec<u8>) -> (res: Vec<Delivery>)
        requires
            self.wf(),
        ensures
            deliveries_view(res@) == close_slot(ping_target(self@, meta@), MessageView::Pong(payload@)),
    {
        let slot = slot_of(&meta.kind);
        let target: Option<PeerId> = match slot {
            Slot::V1Server => match &self.v1_server {
                Some(h) => Some(h.peer_id),
                None => None,
            },
            Slot::V1Client => match &self.v1_client {
                Some(h) => Some(h.peer_id),
                None => None,
            },
            Slot::Control => match &self.server_control {
                Some(h) => Some(h.peer_id),
                None => None,
            },
            Slot::ServerData(id) => match self.find_server_data(id.as_str()) {
                Some(i) => Some(self.server_data[i].1.peer_id),
                None => None,
            },
            Slot::Client(id) => match self.find_group(id.as_str()) {
                Some(gi) => {
                    proof {
                        lemma_group_unique(self.clients@, gi as int);
                    }
                    match find_member(&self.clients[gi].1, meta.peer_id) {
                        Some(j) => {
                            proof {
                                crate::assoc::lemma_assoc_index(member_pairs(self.clients@[gi as int].1@), j as int);
                            }
                            Some(self.clients[gi].1[j].peer_id)
                        },
                        None => None,
                    }
                },
                None => None,
            },
        };
        let mut out: Vec<Delivery> = Vec::new();
        match target {
            Some(p) => {
                out.push(Delivery { peer: p, message: OutboundMessage::Pong(payload) });
            },
            None => {},
        }
        proof {
            assert(deliveries_view(out@) =~= close_slot(ping_target(self@, meta@), MessageView::Pong(payload@)));
        }
        out
    }

    fn detach(&mut self, peer: PeerId)
        requires
            old(self).wf(),
        ensures
            final(self).wf(),
            final(self)@ == (SessionView { channels: old(self)@.channels.remove(peer), ..old(self)@ }),
    {
        let ghost before = self.channels@;
        match self.find_channel(peer) {
            Some(i) => {
                let _ = self.channels.remove(i);
                proof {
                    lemma_assoc_remove(before, i as int);
                }
            },
            None => {
                proof {
                    assert(assoc_map(before).remove(peer) =~= assoc_map(before));
                }
            },
        }
        proof {
            assert(self@ =~= (SessionView { channels: assoc_map(before).remove(peer), ..old(self)@ }));
        }
    }

    /// Whether `id` has a client socket.
    pub fn has_client_socket(&self, id: &str) -> (res: bool)
        requires
            self.wf(),
        ensures
            res == (self@.clients.contains_key(id@) && has_members(self@.clients[id@])),
    {
        match self.find_group(id) {
            Some(gi) => {
                proof {
                    lemma_group_unique(self.clients@, gi as int);
                    lemma_has_members(self.clients@[gi as int].1@);
                }
                self.clients[gi].1.len() > 0
            },
            None => false,
        }
    }

    /// Whether `id` has a server data socket.
    pub fn has_server_data_socket(&self, id: &str) -> (res: bool)
        requires
            self.wf(),
        ensures
            res == self@.server_data.contains_key(id@),
    {
        self.find_server_data(id).is_some()
    }

    /// A check of the control channel for a client of `id` that waits for its server
    /// data socket: `None` once the wait is over (no client left, or the server data
    /// socket came), else what to send: a new sync at the first step, a close of the
    /// unresponsive control socket at the final one.
    pub fn nudge_step(&self, id: &str, step: NudgeStep) -> (res: Option<Vec<Delivery>>)
        requires
            self.wf(),
        ensures
            opt_deliveries_view(res) == if !nudge_wanted(self@, id@) {
                None
            } else {
                Some(
                    match step {
                        NudgeStep::First => to_control(
                            self@,
                            MessageView::Text(sync_text(sorted_list_of(active_ids(self@)))),
                        ),
                        NudgeStep::Final => to_control(self@, MessageView::Close(1011, "Control unresponsive"@)),
                    },
                )
            },
            sorted_strict(sorted_list_of(active_ids(self@))),
            sorted_list_of(active_ids(self@)).to_set() == active_ids(self@),
    {
        proof {
            self.lemma_wf_bounds();
            lemma_sorted_list_of(active_ids(self@));
        }
        if !self.has_client_socket(id) {
            return None;
        }
        if self.has_server_data_socket(id) {
            return None;
        }
        let mut out: Vec<Delivery> = Vec::new();
        match &self.server_control {
            Some(control) => {
                let message = match step {
                    NudgeStep::First => {
                        let ids = self.collect_client_connection_ids();
                        OutboundMessage::Text(sync_message(&ids))
                    },
                    NudgeStep::Final => close_message(1011, "Control unresponsive"),
                };
                out.push(Delivery { peer: control.peer_id, message });
            },
            None => {},
        }
        proof {
            match step {
                NudgeStep::First => {
                    assert(deliveries_view(out@) =~= to_control(
                        self@,
                        MessageView::Text(sync_text(sorted_list_of(active_ids(self@)))),
                    ));
                },
                NudgeStep::Final => {
                    assert(deliveries_view(out@) =~= to_control(self@, MessageView::Close(1011, "Control unresponsive"@)));
                },
            }
        }
        Some(out)
    }
}

fn clear_slot(slot: &mut Option<PeerMeta>, peer: PeerId)
    ensures
        opt_meta(*final(slot)) == clear_if_same(opt_meta(*old(slot)), peer),
        *final(slot) is Some ==> *final(slot) == *old(slot),
{
    let same = match slot {
        Some(h) => h.peer_id == peer,
        None => false,
    };
    if same {
        *slot = None;
    }
}

impl SessionState {
    fn remove_client(&mut self, id: &str, peer: PeerId) -> (res: Vec<Delivery>)
        requires
            old(self).wf(),
        ensures
            final(self).wf(),
            ({
                let v = old(self)@;
                let v2 = final(self)@;
                let d = deliveries_view(res@);
                if !v.clients.contains_key(id@) {
                    v2 == v && d == Seq::<(PeerId, MessageView)>::empty()
                } else {
                    let rest = v.clients[id@].remove(peer);
                    let count = (v.client_count - if v.clients[id@].contains_key(peer) { 1int } else { 0int }) as nat;
                    if has_members(rest) {
                        v2 == (SessionView { clients: v.clients.insert(id@, rest), client_count: count, ..v })
                            && d == Seq::<(PeerId, MessageView)>::empty()
                    } else {
                        v2 == (SessionView {
                            clients: v.clients.remove(id@),
                            client_count: count,
                            pending: v.pending.remove(id@),
                            server_data: v.server_data.remove(id@),
                            ..v
                        }) && d == close_slot(opt_get(v.server_data, id@), client_gone_close()) + to_control(
                            v,
                            MessageView::Text(disconnected_text(id@)),
                        )
                    }
                }
            }),
    {
        let ghost v0 = self@;
        let ghost c0 = self.clients@;
        let mut out: Vec<Delivery> = Vec::new();
        let gi = match self.find_group(id) {
            Some(gi) => gi,
            None => {
                return out;
            },
        };
        let (key, mut members) = self.clients.remove(gi);
        let ghost c1 = self.clients@;
        let ghost group = v0.clients[id@];
        proof {
            lemma_client_pairs_remove(c0, gi as int);
            lemma_assoc_remove(client_pairs(c0), gi as int);
            lemma_client_sum_remove(c0, gi as int);
            lemma_group_unique(c0, gi as int);
            assert(group_map(members@) == group);
            assert(assoc_map(client_pairs(c1)) == v0.clients.remove(id@));
            lemma_assoc_dom(member_pairs(members@));
        }
        let ghost m0 = members@;
        match find_member(&members, peer) {
            Some(j) => {
                let _ = members.remove(j);
                proof {
                    lemma_member_pairs_remove(m0, j as int);
                    lemma_assoc_remove(member_pairs(m0), j as int);
                }
            },
            None => {
                proof {
                    assert(group.remove(peer) =~= group);
                }
            },
        }
        let ghost rest = group.remove(peer);
        proof {
            assert(group_map(members@) == rest);
            lemma_assoc_dom(member_pairs(members@));
            lemma_has_members(members@);
            assert(members@.len() == m0.len() - if group.contains_key(peer) { 1int } else { 0int });
        }
        if members.len() > 0 {
            let ghost entry = (key, members);
            self.clients.push((key, members));
            proof {
                lemma_client_pairs_push(c1, entry);
                assert(!assoc_map(client_pairs(c1)).contains_key(id@));
                lemma_assoc_push(client_pairs(c1), id@, rest);
                lemma_client_sum_push(c1, entry);
                assert(assoc_map(client_pairs(self.clients@)) =~= v0.clients.insert(id@, rest));
                assert(self@ =~= (SessionView {
                    clients: v0.clients.insert(id@, rest),
                    client_count: (v0.client_count - if group.contains_key(peer) { 1int } else { 0int }) as nat,
                    ..v0
                }));
            }
            return out;
        }
        let ghost p0 = self.pending@;
        match self.find_pending(id) {
            Some(j) => {
                let _ = self.pending.remove(j);
                proof {
                    lemma_pending_pairs_remove(p0, j as int);
                    lemma_assoc_remove(pending_pairs(p0), j as int);
                }
            },
            None => {
                proof {
                    assert(v0.pending.remove(id@) =~= v0.pending);
                }
            },
        }
        let ghost sd0 = self.server_data@;
        proof {
            lemma_assoc_dom(server_data_pairs(sd0));
        }
        match self.find_server_data(id) {
            Some(i) => {
                let (_, server) = self.server_data.remove(i);
                proof {
                    lemma_server_data_pairs_remove(sd0, i as int);
                    lemma_assoc_remove(server_data_pairs(sd0), i as int);
                    lemma_assoc_dom(server_data_pairs(self.server_data@));
                }
                out.push(Delivery { peer: server.peer_id, message: close_message(1001, "Client disconnected") });
            },
            None => {
                proof {
                    assert(v0.server_data.remove(id@) =~= v0.server_data);
                }
            },
        }
        let ghost d0 = deliveries_view(out@);
        proof {
            assert(d0 =~= close_slot(opt_get(v0.server_data, id@), client_gone_close()));
        }
        match &self.server_control {
            Some(control) => {
                out.push(Delivery { peer: control.peer_id, message: OutboundMessage::Text(disconnected_message(id)) });
            },
            None => {},
        }
        proof {
            assert(deliveries_view(out@) =~= d0 + to_control(v0, MessageView::Text(disconnected_text(id@))));
            assert(self@ =~= (SessionView {
                clients: v0.clients.remove(id@),
                client_count: (v0.client_count - if group.contains_key(peer) { 1int } else { 0int }) as nat,
                pending: v0.pending.remove(id@),
                server_data: v0.server_data.remove(id@),
                ..v0
            }));
        }
        out
    }

    fn remove_server_data(&mut self, id: &str, peer: PeerId) -> (res: Vec<Delivery>)
        requires
            old(self).wf(),
        ensures
            final(self).wf(),
            final(self)@ == (SessionView {
                server_data: if old(self)@.server_data.contains_key(id@) && old(self)@.server_data[id@].peer_id == peer {
                    old(self)@.server_data.remove(id@)
                } else {
                    old(self)@.server_data
                },
                ..old(self)@
            }),
            fans_out(deliveries_view(res@), group_of(old(self)@, id@), server_gone_close()),
    {
        let ghost v0 = self@;
        let ghost sd0 = self.server_data@;
        proof {
            lemma_assoc_dom(server_data_pairs(sd0));
        }
        match self.find_server_data(id) {
            Some(i) => {
                if self.server_data[i].1.peer_id == peer {
                    let _ = self.server_data.remove(i);
                    proof {
                        lemma_server_data_pairs_remove(sd0, i as int);
                        lemma_assoc_remove(server_data_pairs(sd0), i as int);
                        lemma_assoc_dom(server_data_pairs(self.server_data@));
                    }
                }
            },
            None => {},
        }
        proof {
            assert(self@ =~= (SessionView {
                server_data: if v0.server_data.contains_key(id@) && v0.server_data[id@].peer_id == peer {
                    v0.server_data.remove(id@)
                } else {
                    v0.server_data
                },
                ..v0
            }));
            assert(group_of(self@, id@) == group_of(v0, id@));
        }
        let close = close_message(1012, "Server disconnected");
        self.to_clients(id, &close)
    }

    /// Takes the socket `meta` out of the session when it goes away. A client that
    /// was the last of its connection id ends that connection: its waiting frames are
    /// dropped, its server data socket is closed and the control socket is told. A
    /// server data socket that goes away closes the clients of its connection id.
    /// A slot held by another socket by now is left as it is.
    pub fn unregister(&mut self, meta: &PeerMeta) -> (res: Vec<Delivery>)
        requires
            old(self).wf(),
        ensures
            final(self).wf(),
            unregister_step(old(self)@, final(self)@, meta@, deliveries_view(res@)),
    {
        let ghost v0 = self@;
        let slot = slot_of(&meta.kind);
        let mut out: Vec<Delivery> = Vec::new();
        match slot {
            Slot::V1Server => {
                clear_slot(&mut self.v1_server, meta.peer_id);
                proof {
                    assert(self@ =~= (SessionView { v1_server: clear_if_same(v0.v1_server, meta.peer_id), ..v0 }));
                }
            },
            Slot::V1Client => {
                clear_slot(&mut self.v1_client, meta.peer_id);
                proof {
                    assert(self@ =~= (SessionView { v1_client: clear_if_same(v0.v1_client, meta.peer_id), ..v0 }));
                }
            },
            Slot::Control => {
                clear_slot(&mut self.server_control, meta.peer_id);
                proof {
                    assert(self@ =~= (SessionView {
                        server_control: clear_if_same(v0.server_control, meta.peer_id),
                        ..v0
                    }));
                }
            },
            Slot::Client(id) => {
                out = self.remove_client(id.as_str(), meta.peer_id);
            },
            Slot::ServerData(id) => {
                out = self.remove_server_data(id.as_str(), meta.peer_id);
            },
        }
        let ghost v1 = self@;
        self.detach(meta.peer_id);
        proof {
            let base = SessionView { channels: v0.channels.remove(meta.peer_id), ..v0 };
            assert(self@ == (SessionView { channels: v1.channels.remove(meta.peer_id), ..v1 }));
            match meta@.kind {
                PeerKindView::V2Client(id) => {
                    if v0.clients.contains_key(id) {
                        let rest = v0.clients[id].remove(meta.peer_id);
                        let count = (v0.client_count - if v0.clients[id].contains_key(meta.peer_id) { 1int } else { 0int }) as nat;
                        if has_members(rest) {
                            assert(self@ =~= (SessionView { clients: v0.clients.insert(id, rest), client_count: count, ..base }));
                        } else {
                            assert(self@ =~= (SessionView {
                                clients: v0.clients.remove(id),
                                client_count: count,
                                pending: v0.pending.remove(id),
                                server_data: v0.server_data.remove(id),
                                ..base
                            }));
                        }
                    } else {
                        assert(self@ =~= base);
                    }
                },
                PeerKindView::V2ServerData(id) => {
                    assert(self@ =~= (SessionView {
                        server_data: if v0.server_data.contains_key(id) && v0.server_data[id].peer_id == meta.peer_id {
                            v0.server_data.remove(id)
                        } else {
                            v0.server_data
                        },
                        ..base
                    }));
                },
                PeerKindView::V1Server => {
                    assert(deliveries_view(out@) =~= Seq::<(PeerId, MessageView)>::empty());
                    assert(self@ =~= (SessionView { v1_server: clear_if_same(v0.v1_server, meta.peer_id), ..base }));
                },
                PeerKindView::V1Client => {
                    assert(deliveries_view(out@) =~= Seq::<(PeerId, MessageView)>::empty());
                    assert(self@ =~= (SessionView { v1_client: clear_if_same(v0.v1_client, meta.peer_id), ..base }));
                },
                PeerKindView::V2ServerControl => {
                    assert(deliveries_view(out@) =~= Seq::<(PeerId, MessageView)>::empty());
                    assert(self@ =~= (SessionView { server_control: clear_if_same(v0.server_control, meta.peer_id), ..base }));
                },
            }
        }
        out
    }

    /// The number of attached channels.
    pub closed spec fn channel_count(&self) -> nat {
        self.channels@.len()
    }

    /// The peer of the attached channel at place `i`.
    pub closed spec fn channel_peer(&self, i: int) -> PeerId {
        self.channels@[i].0
    }

    /// The attached channel at place `i`.
    pub closed spec fn channel_tx(&self, i: int) -> Sender<OutboundMessage> {
        self.channels@[i].1
    }

    /// The deliveries to attached peers, each with the place of its peer's channel,
    /// in their order; a delivery to a peer without a channel is dropped.
    pub fn outbox(&self, deliveries: Vec<Delivery>) -> (res: Vec<(usize, OutboundMessage)>)
        requires
            self.wf(),
        ensures
            forall|j: int| 0 <= j < res@.len() ==> {
                &&& (#[trigger] res@[j]).0 < self.channel_count()
                &&& self@.channels.contains_key(self.channel_peer(res@[j].0 as int))
                &&& self@.channels[self.channel_peer(res@[j].0 as int)] == self.channel_tx(res@[j].0 as int)
            },
            res@.map_values(|e: (usize, OutboundMessage)| (self.channel_peer(e.0 as int), e.1@))
                == attached_only(deliveries_view(deliveries@), self@.channels),
    {
        let ghost orig = deliveries_view(deliveries@);
        let mut rest = deliveries;
        let mut out: Vec<(usize, OutboundMessage)> = Vec::new();
        proof {
            assert(orig.subrange(0, 0) =~= Seq::<(PeerId, MessageView)>::empty());
            assert(deliveries_view(rest@) =~= orig.subrange(0, orig.len() as int));
            lemma_assoc_facts(self.channels@);
        }
        while rest.len() > 0
            invariant
                self.wf(),
                orig.len() >= rest@.len(),
                deliveries_view(rest@) == orig.subrange(orig.len() - rest@.len(), orig.len() as int),
                forall|j: int| 0 <= j < out@.len() ==> {
                    &&& (#[trigger] out@[j]).0 < self.channels@.len()
                    &&& self@.channels.contains_key(self.channels@[out@[j].0 as int].0)
                    &&& self@.channels[self.channels@[out@[j].0 as int].0] == self.channels@[out@[j].0 as int].1
                },
                out@.map_values(|e: (usize, OutboundMessage)| (self.channels@[e.0 as int].0, e.1@))
                    == attached_only(orig.subrange(0, orig.len() - rest@.len()), self@.channels),
            decreases rest@.len(),
        {
            let ghost k = orig.len() - rest@.len();
            let ghost r0 = rest@;
            let delivery = rest.remove(0);
            proof {
                assert(deliveries_view(r0)[0] == (delivery.peer, delivery.message@));
                assert(orig[k] == (delivery.peer, delivery.message@));
                assert forall|j: int| 0 <= j < rest@.len() implies #[trigger] deliveries_view(rest@)[j]
                    == orig.subrange(k + 1, orig.len() as int)[j] by {
                    assert(rest@[j] == r0[j + 1]);
                    assert(deliveries_view(r0)[j + 1] == orig.subrange(k, orig.len() as int)[j + 1]);
                }
                assert(deliveries_view(rest@) =~= orig.subrange(k + 1, orig.len() as int));
                assert(orig.subrange(0, k + 1).drop_last() =~= orig.subrange(0, k));
            }
            let ghost out0 = out@;
            match self.find_channel(delivery.peer) {
                Some(i) => {
                    out.push((i, delivery.message));
                    proof {
                        crate::assoc::lemma_assoc_index(self.channels@, i as int);
                        assert(out@.map_values(|e: (usize, OutboundMessage)| (self.channels@[e.0 as int].0, e.1@))
                            =~= out0.map_values(|e: (usize, OutboundMessage)| (self.channels@[e.0 as int].0, e.1@)).push(orig[k]));
                    }
                },
                None => {},
            }
        }
        proof {
            assert(orig.subrange(0, orig.len() as int) =~= orig);
        }
        out
    }

    /// Hands each delivery to the outbound channel of its peer, if the peer is still
    /// attached (see `outbox`). A close is queued if there is room and dropped
    /// otherwise; any other message goes through `send_or_close`, which keeps the
    /// last place of the queue for the slow-consumer close. Gives back what was done
    /// for each attached delivery, in their order.
    pub fn dispatch(&self, deliveries: Vec<Delivery>) -> (res: Vec<Dispatched>)
        requires
            self.wf(),
        ensures
            res@.len() == attached_only(deliveries_view(deliveries@), self@.channels).len(),
            forall|j: int|
                0 <= j < res@.len() ==> dispatched(
                    self@.channels[attached_only(deliveries_view(deliveries@), self@.channels)[j].0],
                    attached_only(deliveries_view(deliveries@), self@.channels)[j].1,
                    #[trigger] res@[j],
                ),
            chained(all_attempts(res@), Seq::<Handover>::empty()),
    {
        let ghost a = attached_only(deliveries_view(deliveries@), self@.channels);
        let mut rest = self.outbox(deliveries);
        let ghost items = rest@;
        let mut done: Vec<Dispatched> = Vec::new();
        let mut log = SendLog::new();
        while rest.len() > 0
            invariant
                self.wf(),
                items.len() == a.len(),
                forall|j: int| 0 <= j < items.len() ==> {
                    &&& (#[trigger] items[j]).0 < self.channel_count()
                    &&& self@.channels.contains_key(self.channel_peer(items[j].0 as int))
                    &&& self@.channels[self.channel_peer(items[j].0 as int)] == self.channel_tx(items[j].0 as int)
                    &&& a[j] == (self.channel_peer(items[j].0 as int), items[j].1@)
                },
                done@.len() + rest@.len() == items.len(),
                forall|j: int| 0 <= j < rest@.len() ==> #[trigger] rest@[j] == items[done@.len() + j],
                forall|j: int|
                    0 <= j < done@.len() ==> dispatched(self@.channels[a[j].0], a[j].1, #[trigger] done@[j]),
                chained(all_attempts(done@), Seq::<Handover>::empty()),
                log.entries() == handed_of(all_attempts(done@)),
            decreases rest@.len(),
        {
            let ghost k = done@.len() as int;
            let ghost r0 = rest@;
            let (i, message) = rest.remove(0);
            proof {
                assert(r0[0] == items[k]);
                assert forall|j: int| 0 <= j < rest@.len() implies #[trigger] rest@[j] == items[k + 1 + j] by {
                    assert(rest@[j] == r0[j + 1]);
                }
            }
            let tx = &self.channels[i].1;
            let ghost before = log.entries();
            let ghost d0 = done@;
            let step = match message {
                OutboundMessage::Close { code, reason } => Dispatched::Close(
                    close_logged(&mut log, tx, code, reason.as_str()),
                ),
                other => Dispatched::Message(send_logged(&mut log, tx, other)),
            };
            proof {
                assert(dispatched(self@.channels[a[k].0], a[k].1, step));
                let prev = all_attempts(done@);
                let mine = attempts_of(step);
                match &step {
                    Dispatched::Close(at) => {
                        assert(mine.take(0) =~= Seq::<SendAttempt>::empty());
                        assert(handed_of(mine.take(0)) =~= Seq::<Handover>::empty());
                        assert(before + handed_of(mine.take(0)) =~= before);
                        assert(handed_of(mine) =~= seq![at.handed()]);
                        assert(log.entries() =~= before + handed_of(mine));
                    },
                    Dispatched::Message(_) => {},
                }
                assert(chained(mine, before));
                lemma_chained_append(prev, mine, Seq::<Handover>::empty());
                assert(Seq::<Handover>::empty() + handed_of(prev) =~= handed_of(prev));
            }
            done.push(step);
            proof {
                assert(done@.drop_last() =~= d0);
                assert(all_attempts(done@) == all_attempts(d0) + attempts_of(step));
            }
        }
        done
    }
}

/// What `dispatch` did for one delivery: the hand-over of a close, or what
/// `send_or_close` did with any other message.
pub enum Dispatched {
    Close(SendAttempt),
    Message(SendReport),
}

/// The hand-overs of one dispatched delivery, in order.
pub open spec fn attempts_of(d: Dispatched) -> Seq<SendAttempt> {
    match d {
        Dispatched::Close(attempt) => seq![attempt],
        Dispatched::Message(report) => report.attempts@,
    }
}

/// The hand-overs of these dispatched deliveries, delivery after delivery.
pub open spec fn all_attempts(done: Seq<Dispatched>) -> Seq<SendAttempt>
    decreases done.len(),
{
    if done.len() == 0 {
        Seq::empty()
    } else {
        all_attempts(done.drop_last()) + attempts_of(done.last())
    }
}

/// What `dispatch` owes for message `m` on its peer's channel `ch`: a close is
/// handed over as it is, once; any other message as `send_or_close` owes it, for
/// the room the queue had.
pub open spec fn dispatched(ch: Sender<OutboundMessage>, m: MessageView, d: Dispatched) -> bool {
    match d {
        Dispatched::Close(attempt) => m is Close && attempt.handed() == (ch, m),
        Dispatched::Message(report) => !(m is Close) && sent_as_owed(ch, m, report.room, report.attempts@),
    }
}

} // verus!
