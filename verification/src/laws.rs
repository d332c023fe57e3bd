//! Properties of the relay that span several operations.

use vstd::prelude::*;
use crate::peer::{PeerId, PeerKindView, PeerMetaView};
use crate::protocol::{role_of_text, role_text, version_of_param, version_text, ConnectionRole, RelayVersion};
use crate::channel::{chained, handed_of, Handover};
use crate::session::{
    all_attempts, attempts_of, dispatched, Dispatched,
    active_ids, has_members, lemma_sorted_list_of, sorted_list_of, sorted_strict,
    bounded_push, close_previous, flush_to, frame_step, group_of, pending_of, live_count, ping_target, register_outcome, unregister_step,
    FrameView, MessageView, OutboundMessage, SessionView, PENDING_FRAME_LIMIT,
};
use crate::ingress::{
    elapsed_ms, ingress_step, rate_close, ActionView, InboundMessageView, InboundView, RateWindow,
};
use crate::config::RelayLimitsConfig;
use crate::json::sync_text;
use crate::text::{is_white_space, trim_end_spec, trim_spec, trim_start_spec};
use tokio::sync::mpsc::Sender;

verus! {

/// The wire name of a role is read back as that role.
pub proof fn law_role_round_trip(r: ConnectionRole)
    ensures
        role_of_text(role_text(r)) == Some(r),
{
    reveal_strlit("server");
    reveal_strlit("client");
    assert("server"@[0] != "client"@[0]);
}

/// The wire name of a version, given as the `v` parameter, selects that version.
pub proof fn law_version_round_trip(v: RelayVersion)
    ensures
        version_of_param(Some(version_text(v))) == Some(v),
{
    reveal_strlit("1");
    reveal_strlit("2");
    let t = version_text(v);
    assert(t.len() == 1);
    assert(!is_white_space(t[0]));
    assert(trim_start_spec(t) == t);
    assert(trim_end_spec(t) == t);
    assert(trim_spec(t) == t);
    assert("1"@[0] != "2"@[0]);
}

/// Buffering a frame puts it last, keeps the frames before it in order, and never
/// keeps more than `PENDING_FRAME_LIMIT` frames.
pub proof fn law_buffer_bounded(q: Seq<FrameView>, f: FrameView)
    requires
        q.len() <= PENDING_FRAME_LIMIT,
    ensures
        bounded_push(q, f).len() <= PENDING_FRAME_LIMIT,
        bounded_push(q, f).len() > 0,
        bounded_push(q, f).last() == f,
        q.push(f).subrange(q.len() + 1 - bounded_push(q, f).len(), q.len() + 1int) == bounded_push(q, f),
{
    let p = q.push(f);
    if p.len() > PENDING_FRAME_LIMIT {
        assert(p.subrange(p.len() - PENDING_FRAME_LIMIT, p.len() as int).last() == f);
    } else {
        assert(p.subrange(0, p.len() as int) =~= p);
    }
}

/// The queue that buffering the frames `fs` one after another gives, from none.
pub open spec fn buffer_all(fs: Seq<FrameView>) -> Seq<FrameView>
    decreases fs.len(),
{
    if fs.len() == 0 {
        seq![]
    } else {
        bounded_push(buffer_all(fs.drop_last()), fs.last())
    }
}

/// Buffering frames one after another keeps the latest `PENDING_FRAME_LIMIT` of them,
/// in the order they came.
pub proof fn law_buffer_keeps_latest(fs: Seq<FrameView>)
    ensures
        buffer_all(fs) == fs.subrange(
            if fs.len() > PENDING_FRAME_LIMIT { fs.len() - PENDING_FRAME_LIMIT } else { 0 },
            fs.len() as int,
        ),
    decreases fs.len(),
{
    if fs.len() == 0 {
        assert(fs.subrange(0, 0) =~= Seq::<FrameView>::empty());
    } else {
        let init = fs.drop_last();
        law_buffer_keeps_latest(init);
        let n = fs.len() as int;
        let lim = PENDING_FRAME_LIMIT as int;
        let start0 = if init.len() > lim { init.len() - lim } else { 0 };
        let q = init.subrange(start0, init.len() as int);
        let p = q.push(fs.last());
        assert(p =~= fs.subrange(start0, n));
        if p.len() > lim {
            assert(p.subrange(p.len() - lim, p.len() as int) =~= fs.subrange(n - lim, n));
        } else {
            assert(start0 == 0);
        }
    }
}

/// The socket `m` holds the slot of its own kind.
pub open spec fn routed(v: SessionView, m: PeerMetaView) -> bool {
    ping_target(v, m) == Some(m)
}

/// An admitted socket holds the slot of its kind, and its channel is attached.
pub proof fn law_registered_is_routed(v: SessionView, m: PeerMetaView, tx: Sender<OutboundMessage>)
    requires
        register_outcome(v, m, tx).1 is Ok,
    ensures
        routed(register_outcome(v, m, tx).0, m),
        register_outcome(v, m, tx).0.channels.contains_key(m.peer_id),
        register_outcome(v, m, tx).0.channels[m.peer_id] == tx,
{
    let v2 = register_outcome(v, m, tx).0;
    match m.kind {
        PeerKindView::V2ServerData(id) => {
            assert(v2.server_data.contains_key(id));
        },
        PeerKindView::V2Client(id) => {
            assert(v2.clients.contains_key(id));
            assert(group_of(v2, id) == group_of(v, id).insert(m.peer_id, m));
        },
        _ => {},
    }
}

/// A control socket that is admitted is told, last, the connection ids that have a
/// client socket: each of them once, in ascending order, and no other.
pub proof fn law_control_sync_lists_active_ids(v: SessionView, m: PeerMetaView, tx: Sender<OutboundMessage>)
    requires
        m.kind == PeerKindView::V2ServerControl,
        live_count(v) < v.limits.max_sockets_per_session,
        active_ids(v).finite(),
    ensures
        register_outcome(v, m, tx).1 matches Ok((d, nudge)) && nudge is None && d.len() > 0 && d.last().0
            == m.peer_id && d.last().1 == MessageView::Text(sync_text(sorted_list_of(active_ids(v)))),
        sorted_strict(sorted_list_of(active_ids(v))),
        forall|x: Seq<char>|
            sorted_list_of(active_ids(v)).contains(x) <==> (v.clients.contains_key(x) && has_members(v.clients[x])),
{
    lemma_sorted_list_of(active_ids(v));
    let l = sorted_list_of(active_ids(v));
    assert forall|x: Seq<char>| l.contains(x) <==> (v.clients.contains_key(x) && has_members(v.clients[x])) by {
        assert(l.to_set().contains(x) == l.contains(x));
    }
}

/// A socket that left holds no slot of its kind, and its channel is detached.
pub proof fn law_departed_not_routed(
    v: SessionView,
    v2: SessionView,
    m: PeerMetaView,
    d: Seq<(PeerId, MessageView)>,
)
    requires
        unregister_step(v, v2, m, d),
    ensures
        !(ping_target(v2, m) matches Some(t) && t.peer_id == m.peer_id),
        !v2.channels.contains_key(m.peer_id),
{
    match m.kind {
        PeerKindView::V2Client(id) => {
            if v.clients.contains_key(id) {
                let rest = v.clients[id].remove(m.peer_id);
                assert(!rest.contains_key(m.peer_id));
            }
        },
        _ => {},
    }
}

/// Admitting a socket never takes the session past its socket limit, nor a
/// connection id past its client limit.
pub proof fn law_register_keeps_limits(v: SessionView, m: PeerMetaView, tx: Sender<OutboundMessage>)
    requires
        live_count(v) <= v.limits.max_sockets_per_session,
        v.server_data.dom().finite(),
        forall|k: Seq<char>| #[trigger] v.clients.contains_key(k) ==> v.clients[k].dom().finite()
            && v.clients[k].dom().len() <= v.limits.max_clients_per_connection,
    ensures
        live_count(register_outcome(v, m, tx).0) <= v.limits.max_sockets_per_session,
        register_outcome(v, m, tx).0.limits == v.limits,
        forall|k: Seq<char>| #[trigger] register_outcome(v, m, tx).0.clients.contains_key(k)
            ==> register_outcome(v, m, tx).0.clients[k].dom().len() <= v.limits.max_clients_per_connection,
{
    let v2 = register_outcome(v, m, tx).0;
    if live_count(v) < v.limits.max_sockets_per_session {
        match m.kind {
            PeerKindView::V2ServerData(id) => {
                if v.server_data.contains_key(id) {
                    assert(v2.server_data.dom() =~= v.server_data.dom());
                } else {
                    assert(v2.server_data.dom() =~= v.server_data.dom().insert(id));
                }
            },
            PeerKindView::V2Client(id) => {
                let g = group_of(v, id);
                if g.dom().len() < v.limits.max_clients_per_connection {
                    if g.contains_key(m.peer_id) {
                        assert(g.insert(m.peer_id, m).dom() =~= g.dom());
                    } else {
                        assert(g.insert(m.peer_id, m).dom() =~= g.dom().insert(m.peer_id));
                    }
                } else {
                    if !v.clients.contains_key(id) {
                        assert(g.dom() =~= Set::<PeerId>::empty());
                    }
                }
            },
            _ => {},
        }
    }
}

/// The slot of `m`'s kind is free, so that admitting `m` replaces nobody.
pub open spec fn slot_free(v: SessionView, m: PeerMetaView) -> bool {
    &&& !v.channels.contains_key(m.peer_id)
    &&& match m.kind {
        PeerKindView::V1Server => v.v1_server is None,
        PeerKindView::V1Client => v.v1_client is None,
        PeerKindView::V2ServerControl => v.server_control is None,
        PeerKindView::V2ServerData(id) => !v.server_data.contains_key(id) && !v.pending.contains_key(id),
        PeerKindView::V2Client(id) => !v.clients.contains_key(id) && !v.server_data.contains_key(id)
            && !v.pending.contains_key(id),
    }
}

/// A socket admitted into a free slot and then gone leaves the session as it was.
pub proof fn law_register_then_unregister(
    v: SessionView,
    m: PeerMetaView,
    tx: Sender<OutboundMessage>,
    v3: SessionView,
    d: Seq<(PeerId, MessageView)>,
)
    requires
        register_outcome(v, m, tx).1 is Ok,
        slot_free(v, m),
        unregister_step(register_outcome(v, m, tx).0, v3, m, d),
    ensures
        v3 == v,
{
    let v2 = register_outcome(v, m, tx).0;
    assert(v2.channels.remove(m.peer_id) =~= v.channels);
    match m.kind {
        PeerKindView::V2ServerData(id) => {
            assert(v2.server_data.remove(id) =~= v.server_data);
            assert(v.pending.remove(id) =~= v.pending);
        },
        PeerKindView::V2Client(id) => {
            let g = group_of(v, id);
            assert(g == Map::<PeerId, PeerMetaView>::empty());
            assert(v2.clients[id] == g.insert(m.peer_id, m));
            let rest = v2.clients[id].remove(m.peer_id);
            assert(rest =~= Map::<PeerId, PeerMetaView>::empty());
            assert(!crate::session::has_members(rest));
            assert(v2.clients.remove(id) =~= v.clients);
            assert(v.pending.remove(id) =~= v.pending);
            assert(v.server_data.remove(id) =~= v.server_data);
        },
        _ => {},
    }
    assert(v3 =~= v);
}

/// Frames wait for a connection id only while it has no server data socket.
pub open spec fn frames_wait_for_server(v: SessionView) -> bool {
    forall|id: Seq<char>| #[trigger] v.pending.contains_key(id) ==> !v.server_data.contains_key(id)
}

/// Admitting a socket keeps frames waiting only where no server data socket is.
pub proof fn law_register_keeps_waiting_frames(v: SessionView, m: PeerMetaView, tx: Sender<OutboundMessage>)
    requires
        frames_wait_for_server(v),
    ensures
        frames_wait_for_server(register_outcome(v, m, tx).0),
{
}

/// Routing a frame keeps frames waiting only where no server data socket is.
pub proof fn law_frame_keeps_waiting_frames(
    v: SessionView,
    v2: SessionView,
    m: PeerMetaView,
    f: FrameView,
    now_ms: u64,
    d: Seq<(PeerId, MessageView)>,
)
    requires
        frames_wait_for_server(v),
        frame_step(v, v2, m, f, now_ms, d),
    ensures
        frames_wait_for_server(v2),
{
}

/// A departure keeps frames waiting only where no server data socket is.
pub proof fn law_unregister_keeps_waiting_frames(
    v: SessionView,
    v2: SessionView,
    m: PeerMetaView,
    d: Seq<(PeerId, MessageView)>,
)
    requires
        frames_wait_for_server(v),
        unregister_step(v, v2, m, d),
    ensures
        frames_wait_for_server(v2),
{
}

/// Frames that a version 2 client sends before the server data socket of its
/// connection id exists are not forwarded but kept; when that socket arrives it
/// receives the latest `PENDING_FRAME_LIMIT` of them, in the order they were sent.
pub proof fn law_waiting_frames_flush_in_order(
    vs: Seq<SessionView>,
    ds: Seq<Seq<(PeerId, MessageView)>>,
    client: PeerMetaView,
    id: Seq<char>,
    fs: Seq<FrameView>,
    now_ms: u64,
    server: PeerMetaView,
    tx: Sender<OutboundMessage>,
)
    requires
        client.version == RelayVersion::V2,
        client.kind == PeerKindView::V2Client(id),
        server.kind == PeerKindView::V2ServerData(id),
        vs.len() == fs.len() + 1,
        ds.len() == fs.len(),
        !vs[0].server_data.contains_key(id),
        !vs[0].pending.contains_key(id),
        forall|i: int| 0 <= i < fs.len() ==> #[trigger] frame_step(vs[i], vs[i + 1], client, fs[i], now_ms, ds[i]),
        live_count(vs[0]) < vs[0].limits.max_sockets_per_session,
    ensures
        forall|i: int| 0 <= i < ds.len() ==> #[trigger] ds[i] == Seq::<(PeerId, MessageView)>::empty(),
        register_outcome(vs.last(), server, tx).1 == Ok::<(Seq<(PeerId, MessageView)>, Option<Seq<char>>), Seq<char>>(
            (
                flush_to(
                    server.peer_id,
                    fs.subrange(
                        if fs.len() > PENDING_FRAME_LIMIT { fs.len() - PENDING_FRAME_LIMIT } else { 0 },
                        fs.len() as int,
                    ),
                ),
                None,
            ),
        ),
{
    lemma_waiting_frames(vs, ds, client, id, fs, now_ms, fs.len() as int);
    let last = vs.last();
    law_buffer_keeps_latest(fs);
    assert(fs.subrange(0, fs.len() as int) =~= fs);
    assert(pending_of(last, id) == buffer_all(fs));
    assert(close_previous(None) + flush_to(server.peer_id, buffer_all(fs)) =~= flush_to(server.peer_id, buffer_all(fs)));
}

proof fn lemma_waiting_frames(
    vs: Seq<SessionView>,
    ds: Seq<Seq<(PeerId, MessageView)>>,
    client: PeerMetaView,
    id: Seq<char>,
    fs: Seq<FrameView>,
    now_ms: u64,
    k: int,
)
    requires
        client.version == RelayVersion::V2,
        client.kind == PeerKindView::V2Client(id),
        vs.len() == fs.len() + 1,
        ds.len() == fs.len(),
        0 <= k <= fs.len(),
        !vs[0].server_data.contains_key(id),
        !vs[0].pending.contains_key(id),
        forall|i: int| 0 <= i < fs.len() ==> #[trigger] frame_step(vs[i], vs[i + 1], client, fs[i], now_ms, ds[i]),
    ensures
        vs[k].server_data == vs[0].server_data,
        vs[k].limits == vs[0].limits,
        live_count(vs[k]) == live_count(vs[0]),
        pending_of(vs[k], id) == buffer_all(fs.subrange(0, k)),
        forall|i: int| 0 <= i < k ==> #[trigger] ds[i] == Seq::<(PeerId, MessageView)>::empty(),
    decreases k,
{
    if k == 0 {
        assert(fs.subrange(0, 0) =~= Seq::<FrameView>::empty());
    } else {
        lemma_waiting_frames(vs, ds, client, id, fs, now_ms, k - 1);
        let j = k - 1;
        assert(frame_step(vs[j], vs[j + 1], client, fs[j], now_ms, ds[j]));
        assert(j + 1 == k);
        assert(fs.subrange(0, k).drop_last() =~= fs.subrange(0, k - 1));
        assert(fs.subrange(0, k).last() == fs[k - 1]);
    }
}

/// Within one rate window that starts with no message, the messages up to the
/// limit pass the rate check and every later one closes the socket for its rate.
pub proof fn law_rate_limit_within_window(
    ws: Seq<RateWindow>,
    times: Seq<u64>,
    ms: Seq<InboundMessageView>,
    acts: Seq<ActionView>,
    limits: RelayLimitsConfig,
)
    requires
        ws.len() == times.len() + 1,
        acts.len() == times.len(),
        ms.len() == times.len(),
        ws[0].messages_in_window == 0,
        times.len() < usize::MAX,
        forall|i: int| 0 <= i < times.len() ==> elapsed_ms(ws[0].window_started_ms, #[trigger] times[i])
            < limits.rate_limit_window_ms,
        forall|i: int| 0 <= i < times.len() ==> (ws[i + 1], acts[i]) == #[trigger] ingress_step(
            ws[i],
            times[i],
            InboundView::Message(ms[i]),
            limits,
        ),
    ensures
        forall|i: int| 0 <= i < acts.len() && i + 1 > limits.max_messages_per_window ==> #[trigger] acts[i]
            == ActionView::Reject(rate_close()),
        forall|i: int| 0 <= i < acts.len() && i + 1 <= limits.max_messages_per_window ==> #[trigger] acts[i]
            != ActionView::Reject(rate_close()),
{
    assert forall|i: int| 0 <= i < acts.len() implies (i + 1 > limits.max_messages_per_window ==> #[trigger] acts[i]
        == ActionView::Reject(rate_close())) && (i + 1 <= limits.max_messages_per_window ==> acts[i]
        != ActionView::Reject(rate_close())) by {
        lemma_window_count(ws, times, ms, acts, limits, i);
        let r = ingress_step(ws[i], times[i], InboundView::Message(ms[i]), limits);
        assert((ws[i + 1], acts[i]) == r);
        reveal_strlit("Rate limit exceeded");
        reveal_strlit("Frame too large");
    }
}

proof fn lemma_window_count(
    ws: Seq<RateWindow>,
    times: Seq<u64>,
    ms: Seq<InboundMessageView>,
    acts: Seq<ActionView>,
    limits: RelayLimitsConfig,
    k: int,
)
    requires
        ws.len() == times.len() + 1,
        acts.len() == times.len(),
        ms.len() == times.len(),
        ws[0].messages_in_window == 0,
        times.len() < usize::MAX,
        0 <= k <= times.len(),
        forall|i: int| 0 <= i < times.len() ==> elapsed_ms(ws[0].window_started_ms, #[trigger] times[i])
            < limits.rate_limit_window_ms,
        forall|i: int| 0 <= i < times.len() ==> (ws[i + 1], acts[i]) == #[trigger] ingress_step(
            ws[i],
            times[i],
            InboundView::Message(ms[i]),
            limits,
        ),
    ensures
        ws[k].window_started_ms == ws[0].window_started_ms,
        ws[k].messages_in_window == k,
    decreases k,
{
    if k > 0 {
        lemma_window_count(ws, times, ms, acts, limits, k - 1);
        let j = k - 1;
        assert((ws[j + 1], acts[j]) == ingress_step(ws[j], times[j], InboundView::Message(ms[j]), limits));
        assert(j + 1 == k);
    }
}

/// The socket that holds the identity slot of a socket of kind `k`, if any: the
/// v1 server, the v1 client, the control socket, or the server data socket of a
/// connection id. A client socket has no slot of its own.
pub open spec fn slot_holder(v: SessionView, k: PeerKindView) -> Option<PeerMetaView> {
    match k {
        PeerKindView::V1Server => v.v1_server,
        PeerKindView::V1Client => v.v1_client,
        PeerKindView::V2ServerControl => v.server_control,
        PeerKindView::V2ServerData(id) => if v.server_data.contains_key(id) {
            Some(v.server_data[id])
        } else {
            None
        },
        PeerKindView::V2Client(_) => None,
    }
}

/// Admitting a socket into an occupied slot tells the previous holder, first, to
/// close because it was replaced, and the new socket then holds the slot.
pub proof fn law_replaced_holder_is_closed(v: SessionView, m: PeerMetaView, tx: Sender<OutboundMessage>)
    requires
        live_count(v) < v.limits.max_sockets_per_session,
        slot_holder(v, m.kind) is Some,
    ensures
        register_outcome(v, m, tx).1 matches Ok((d, _)) && d.len() > 0 && d[0] == (
            slot_holder(v, m.kind)->0.peer_id,
            MessageView::Close(1008, "Replaced by new connection"@),
        ),
        slot_holder(register_outcome(v, m, tx).0, m.kind) == Some(m),
{
    match m.kind {
        PeerKindView::V2ServerData(id) => {
            let d = register_outcome(v, m, tx).1->Ok_0.0;
            assert(d[0] == close_previous(Some(v.server_data[id]))[0]);
        },
        _ => {},
    }
}

/// A socket that leaves frees its slot only if it still holds it: a socket that
/// was replaced leaves its replacement routed. Any other slot is left as it was.
pub proof fn law_departure_keeps_replacement(
    v: SessionView,
    v2: SessionView,
    m: PeerMetaView,
    d: Seq<(PeerId, MessageView)>,
)
    requires
        unregister_step(v, v2, m, d),
        !(m.kind is V2Client),
    ensures
        slot_holder(v2, m.kind) == (if slot_holder(v, m.kind) matches Some(h) && h.peer_id == m.peer_id {
            None
        } else {
            slot_holder(v, m.kind)
        }),
        !(m.kind is V1Server) ==> v2.v1_server == v.v1_server,
        !(m.kind is V1Client) ==> v2.v1_client == v.v1_client,
        !(m.kind is V2ServerControl) ==> v2.server_control == v.server_control,
{
}

/// A v1 frame of either kind, text or binary, goes unchanged to the current socket
/// of the other side, and to nobody when that side is empty; the session is left
/// as it was.
pub proof fn law_v1_frames_cross_unchanged(
    v: SessionView,
    v2: SessionView,
    m: PeerMetaView,
    f: FrameView,
    now_ms: u64,
    d: Seq<(PeerId, MessageView)>,
)
    requires
        m.version == RelayVersion::V1,
        m.kind is V1Server || m.kind is V1Client,
        frame_step(v, v2, m, f, now_ms, d),
    ensures
        v2 == v,
        ({
            let other = if m.kind is V1Server { v.v1_client } else { v.v1_server };
            let unchanged = match f {
                FrameView::Text(t) => MessageView::Text(t),
                FrameView::Binary(b) => MessageView::Binary(b),
            };
            match other {
                Some(o) => d == seq![(o.peer_id, unchanged)],
                None => d == Seq::<(PeerId, MessageView)>::empty(),
            }
        }),
{
}

/// A ping is answered with its own bytes: it counts against the rate limit as a
/// pong does, and where the pong would be let through and ignored the ping is
/// answered with a pong that carries exactly the ping's payload.
pub proof fn law_ping_answered_with_own_payload(
    w: RateWindow,
    now: u64,
    p: Seq<u8>,
    limits: RelayLimitsConfig,
)
    ensures
        ingress_step(w, now, InboundView::Message(InboundMessageView::Ping(p)), limits).0
            == ingress_step(w, now, InboundView::Message(InboundMessageView::Pong), limits).0,
        ingress_step(w, now, InboundView::Message(InboundMessageView::Ping(p)), limits).1 == (if ingress_step(
            w,
            now,
            InboundView::Message(InboundMessageView::Pong),
            limits,
        ).1 is Ignore {
            ActionView::AnswerPing(p)
        } else {
            ActionView::Reject(rate_close())
        }),
        ingress_step(w, now, InboundView::Message(InboundMessageView::Ping(p)), limits).1 is AnswerPing
            || ingress_step(w, now, InboundView::Message(InboundMessageView::Ping(p)), limits).1
            == ActionView::Reject(rate_close()),
{
}

proof fn lemma_all_attempts_prefix(done: Seq<Dispatched>, j: int)
    requires
        0 <= j < done.len(),
    ensures
        all_attempts(done).len() >= all_attempts(done.take(j)).len() + attempts_of(done[j]).len(),
        all_attempts(done).take(all_attempts(done.take(j)).len() as int) == all_attempts(done.take(j)),
        forall|i: int| 0 <= i < attempts_of(done[j]).len() ==> all_attempts(done)[all_attempts(done.take(j)).len() + i]
            == #[trigger] attempts_of(done[j])[i],
    decreases done.len(),
{
    let last = done.len() - 1;
    assert(done.take(last) =~= done.drop_last());
    if j == last {
        assert(all_attempts(done).take(all_attempts(done.take(j)).len() as int) =~= all_attempts(done.take(j)));
    } else {
        lemma_all_attempts_prefix(done.drop_last(), j);
        assert(done.drop_last().take(j) =~= done.take(j));
        assert(done.drop_last()[j] == done[j]);
        let pre = all_attempts(done.drop_last());
        assert(all_attempts(done).take(all_attempts(done.take(j)).len() as int) =~= pre.take(
            all_attempts(done.take(j)).len() as int,
        ));
    }
}

/// `dispatch` hands the messages over in the order of the deliveries: the first
/// hand-over for a delivery comes right after all the hand-overs for the
/// deliveries before it, through the one log that a dispatch uses. So each channel
/// receives the messages meant for it in the order they were decided on.
pub proof fn law_dispatch_in_delivery_order(done: Seq<Dispatched>, j: int)
    requires
        chained(all_attempts(done), Seq::<Handover>::empty()),
        0 <= j < done.len(),
        attempts_of(done[j]).len() > 0,
    ensures
        attempts_of(done[j])[0].prior() == handed_of(all_attempts(done.take(j))),
{
    lemma_all_attempts_prefix(done, j);
    let all = all_attempts(done);
    let n = all_attempts(done.take(j)).len() as int;
    assert(all[n] == attempts_of(done[j])[0]);
    assert(all[n].prior() == Seq::<Handover>::empty() + handed_of(all.take(n)));
    assert(Seq::<Handover>::empty() + handed_of(all.take(n)) =~= handed_of(all.take(n)));
}

/// Each attached delivery gets at least one hand-over from `dispatch`, to the
/// channel of its peer, so the order law above covers every delivery.
pub proof fn law_dispatched_delivery_is_handed_over(ch: Sender<OutboundMessage>, m: MessageView, d: Dispatched)
    requires
        dispatched(ch, m, d),
    ensures
        attempts_of(d).len() > 0,
        attempts_of(d)[0].handed().0 == ch,
{
}

} // verus!
