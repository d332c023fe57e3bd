//! Identity of the sockets of a session: peer ids, connection ids and what kind
//! of peer a socket is.

use vstd::prelude::*;
use crate::json::opt_chars;
use crate::protocol::{ConnectionRole, RelayVersion, WsParams, WsParamsView};

verus! {

/// Identifies one accepted socket; a random version 4 UUID, held as its 128 bits.
#[derive(Debug, Clone, Copy, PartialEq, Eq, Hash, Structural)]
pub struct PeerId(pub u128);

/// The bits of a version 4 UUID of the RFC variant: the version field (bits 76 to
/// 79) holds 4, and the variant field (bits 62 and 63) holds `0b10`.
pub open spec fn is_uuid_v4_bits(bits: u128) -> bool {
    (bits >> 76u128) & 0xfu128 == 4u128 && (bits >> 62u128) & 0x3u128 == 2u128
}

/// A fresh random version 4 UUID from `uuid::Uuid::new_v4`, as its 128 bits
/// (`Uuid::as_u128`). The crate documents and sets the version (4) and the variant
/// (RFC) of the UUID; the other 122 bits are random, and nothing is claimed of them.
#[verifier::external_body]
fn random_uuid_bits() -> (res: u128)
    ensures
        is_uuid_v4_bits(res),
{
    uuid::Uuid::new_v4().as_u128()
}

impl PeerId {
    /// A new random peer id: a version 4 UUID.
    pub fn new() -> (res: PeerId)
        ensures
            is_uuid_v4_bits(res.0),
    {
        PeerId(random_uuid_bits())
    }
}

/// The lower-case hexadecimal digits.
pub open spec fn hex_chars() -> Seq<char> {
    seq!['0', '1', '2', '3', '4', '5', '6', '7', '8', '9', 'a', 'b', 'c', 'd', 'e', 'f']
}

/// The last `width` hexadecimal digits of `v`, most significant first.
pub open spec fn lower_hex(v: nat, width: nat) -> Seq<char>
    decreases width,
{
    if width == 0 {
        seq![]
    } else {
        lower_hex(v / 16, (width - 1) as nat).push(hex_chars()[(v % 16) as int])
    }
}

/// The "simple" text of the UUID with these bits: `uuid::Uuid::from_u128(bits).simple()`
/// written with `to_string`, which the crate documents and writes as the 32
/// lower-case hexadecimal digits of the 128 bits, most significant first.
#[verifier::external_body]
fn uuid_simple_text(bits: u128) -> (res: String)
    ensures
        res@ == lower_hex(bits as nat, 32),
{
    uuid::Uuid::from_u128(bits).simple().to_string()
}

proof fn lemma_lower_hex(v: nat, width: nat)
    ensures
        lower_hex(v, width).len() == width,
        forall|i: int| 0 <= i < width ==> hex_chars().contains(#[trigger] lower_hex(v, width)[i]),
    decreases width,
{
    if width > 0 {
        lemma_lower_hex(v / 16, (width - 1) as nat);
        let d = (v % 16) as int;
        assert(hex_chars()[d] == hex_chars()[d]);
        assert(hex_chars().contains(hex_chars()[d]));
        let prev = lower_hex(v / 16, (width - 1) as nat);
        assert forall|i: int| 0 <= i < width implies hex_chars().contains(
            #[trigger] lower_hex(v, width)[i],
        ) by {
            if i < width - 1 {
                assert(lower_hex(v, width)[i] == prev[i]);
            }
        }
    }
}

/// A connection id is `conn_` followed by 32 lower-case hexadecimal digits.
pub open spec fn is_generated_connection_id(s: Seq<char>) -> bool {
    &&& s.len() == 37
    &&& s.subrange(0, 5) == "conn_"@
    &&& forall|i: int| 5 <= i < 37 ==> hex_chars().contains(#[trigger] s[i])
}

/// Sixteen to the power `n`.
pub open spec fn pow16(n: nat) -> nat
    decreases n,
{
    if n == 0 {
        1
    } else {
        16 * pow16((n - 1) as nat)
    }
}

proof fn lemma_pow16_positive(n: nat)
    ensures
        pow16(n) > 0,
    decreases n,
{
    if n > 0 {
        lemma_pow16_positive((n - 1) as nat);
    }
}

/// The digit at place `k` of `lower_hex(v, width)` is the hexadecimal digit of
/// `v` that stands for `16^(width - 1 - k)`.
proof fn lemma_lower_hex_digit(v: nat, width: nat, k: nat)
    requires
        k < width,
    ensures
        lower_hex(v, width)[k as int] == hex_chars()[((v / pow16((width - 1 - k) as nat)) % 16) as int],
    decreases width,
{
    let prev = lower_hex(v / 16, (width - 1) as nat);
    lemma_lower_hex(v / 16, (width - 1) as nat);
    assert(lower_hex(v, width) == prev.push(hex_chars()[(v % 16) as int]));
    if k < width - 1 {
        let n = (width - 2 - k) as nat;
        lemma_lower_hex_digit(v / 16, (width - 1) as nat, k);
        lemma_pow16_positive(n);
        vstd::arithmetic::div_mod::lemma_div_denominator(v as int, 16, pow16(n) as int);
        assert(pow16((width - 1 - k) as nat) == 16 * pow16(n));
        assert(lower_hex(v, width)[k as int] == prev[k as int]);
    } else {
        assert(pow16((width - 1 - k) as nat) == 1);
        assert(v / 1 == v);
    }
}

/// The connection id made of the UUID with these bits: `conn_` and its 32
/// lower-case hexadecimal digits. For the bits of a version 4 UUID its version
/// digit is `4` and its variant digit one of `8`, `9`, `a`, `b`.
pub fn connection_id_from_bits(bits: u128) -> (res: String)
    ensures
        res@ == "conn_"@ + lower_hex(bits as nat, 32),
        is_generated_connection_id(res@),
        is_uuid_v4_bits(bits) ==> res@[17] == '4',
        is_uuid_v4_bits(bits) ==> (res@[21] == '8' || res@[21] == '9' || res@[21] == 'a' || res@[21] == 'b'),
{
    let hex = uuid_simple_text(bits);
    proof {
        lemma_lower_hex(bits as nat, 32);
        reveal_strlit("conn_");
    }
    let res = String::from_str("conn_").concat(hex.as_str());
    proof {
        assert(res@.subrange(0, 5) =~= "conn_"@);
        assert forall|i: int| 5 <= i < 37 implies hex_chars().contains(#[trigger] res@[i]) by {
            assert(res@[i] == hex@[i - 5]);
        }
        reveal_with_fuel(pow16, 20);
        assert(pow16(19) == 0x10000000000000000000);
        assert(pow16(15) == 0x1000000000000000);
        lemma_lower_hex_digit(bits as nat, 32, 12);
        lemma_lower_hex_digit(bits as nat, 32, 16);
        let b = bits;
        assert((b / 0x10000000000000000000u128) % 16u128 == (b >> 76u128) & 0xfu128) by (bit_vector);
        assert((b >> 62u128) & 0x3u128 == 2u128 ==> 8u128 <= (b / 0x1000000000000000u128) % 16u128
            && (b / 0x1000000000000000u128) % 16u128 <= 11u128) by (bit_vector);
        assert(res@[17] == hex@[12]);
        assert(res@[21] == hex@[16]);
    }
    res
}

/// A new random connection id for a version 2 client that did not name one: the
/// connection id of a fresh version 4 UUID (see `connection_id_from_bits`).
pub fn generate_connection_id() -> (res: String)
    ensures
        exists|bits: u128| #[trigger] is_uuid_v4_bits(bits) && res@ == "conn_"@ + lower_hex(bits as nat, 32),
        is_generated_connection_id(res@),
        res@[17] == '4',
        res@[21] == '8' || res@[21] == '9' || res@[21] == 'a' || res@[21] == 'b',
{
    let bits = random_uuid_bits();
    connection_id_from_bits(bits)
}

/// What a socket is within its session.
#[derive(Debug)]
pub enum PeerKind {
    V1Server,
    V1Client,
    V2ServerControl,
    V2ServerData { connection_id: String },
    V2Client { connection_id: String },
}

pub enum PeerKindView {
    V1Server,
    V1Client,
    V2ServerControl,
    V2ServerData(Seq<char>),
    V2Client(Seq<char>),
}

impl View for PeerKind {
    type V = PeerKindView;

    open spec fn view(&self) -> PeerKindView {
        match self {
            PeerKind::V1Server => PeerKindView::V1Server,
            PeerKind::V1Client => PeerKindView::V1Client,
            PeerKind::V2ServerControl => PeerKindView::V2ServerControl,
            PeerKind::V2ServerData { connection_id } => PeerKindView::V2ServerData(connection_id@),
            PeerKind::V2Client { connection_id } => PeerKindView::V2Client(connection_id@),
        }
    }
}

impl Clone for PeerKind {
    fn clone(&self) -> (res: Self)
        ensures
            res@ == self@,
    {
        match self {
            PeerKind::V1Server => PeerKind::V1Server,
            PeerKind::V1Client => PeerKind::V1Client,
            PeerKind::V2ServerControl => PeerKind::V2ServerControl,
            PeerKind::V2ServerData { connection_id } => PeerKind::V2ServerData {
                connection_id: connection_id.clone(),
            },
            PeerKind::V2Client { connection_id } => PeerKind::V2Client {
                connection_id: connection_id.clone(),
            },
        }
    }
}

/// Everything the relay knows of an accepted socket.
#[derive(Debug)]
pub struct PeerMeta {
    pub peer_id: PeerId,
    pub server_id: String,
    pub role: ConnectionRole,
    pub version: RelayVersion,
    pub connection_id: Option<String>,
    pub kind: PeerKind,
}

pub struct PeerMetaView {
    pub peer_id: PeerId,
    pub server_id: Seq<char>,
    pub role: ConnectionRole,
    pub version: RelayVersion,
    pub connection_id: Option<Seq<char>>,
    pub kind: PeerKindView,
}

impl View for PeerMeta {
    type V = PeerMetaView;

    open spec fn view(&self) -> PeerMetaView {
        PeerMetaView {
            peer_id: self.peer_id,
            server_id: self.server_id@,
            role: self.role,
            version: self.version,
            connection_id: opt_chars(self.connection_id),
            kind: self.kind@,
        }
    }
}

pub fn clone_opt_string(s: &Option<String>) -> (res: Option<String>)
    ensures
        opt_chars(res) == opt_chars(*s),
{
    match s {
        Some(t) => Some(t.clone()),
        None => None,
    }
}

impl Clone for PeerMeta {
    fn clone(&self) -> (res: Self)
        ensures
            res@ == self@,
    {
        PeerMeta {
            peer_id: self.peer_id,
            server_id: self.server_id.clone(),
            role: self.role,
            version: self.version,
            connection_id: clone_opt_string(&self.connection_id),
            kind: self.kind.clone(),
        }
    }
}

/// A version 2 client that names no connection id is given a generated one.
pub open spec fn needs_generated_id(params: WsParamsView) -> bool {
    params.version == RelayVersion::V2 && params.role == ConnectionRole::Client
        && params.connection_id is None
}

/// The kind of peer that a socket with these parameters is, given its connection id.
pub open spec fn kind_for(
    version: RelayVersion,
    role: ConnectionRole,
    connection_id: Option<Seq<char>>,
) -> PeerKindView {
    match (version, role) {
        (RelayVersion::V1, ConnectionRole::Server) => PeerKindView::V1Server,
        (RelayVersion::V1, ConnectionRole::Client) => PeerKindView::V1Client,
        (RelayVersion::V2, ConnectionRole::Server) => match connection_id {
            None => PeerKindView::V2ServerControl,
            Some(id) => PeerKindView::V2ServerData(id),
        },
        (RelayVersion::V2, ConnectionRole::Client) => PeerKindView::V2Client(
            connection_id.unwrap_or(Seq::empty()),
        ),
    }
}

/// The description of a socket with these parameters and this peer id; `generated`
/// is the connection id to use where the parameters name none and one is needed.
pub open spec fn meta_for(params: WsParamsView, peer_id: PeerId, generated: Seq<char>) -> PeerMetaView {
    let connection_id = if needs_generated_id(params) {
        Some(generated)
    } else {
        params.connection_id
    };
    PeerMetaView {
        peer_id,
        server_id: params.server_id,
        role: params.role,
        version: params.version,
        connection_id,
        kind: kind_for(params.version, params.role, connection_id),
    }
}

/// Describes the socket with these parameters and peer id. `generated` supplies
/// the connection id of a version 2 client that names none.
pub fn peer_meta_from(params: WsParams, peer_id: PeerId, generated: Option<String>) -> (res: PeerMeta)
    requires
        needs_generated_id(params@) ==> generated is Some,
    ensures
        res@ == meta_for(params@, peer_id, opt_chars(generated).unwrap_or(Seq::empty())),
{
    let needs = params.version == RelayVersion::V2 && params.role == ConnectionRole::Client
        && params.connection_id.is_none();
    let connection_id = if needs {
        generated
    } else {
        params.connection_id
    };
    let kind = match (params.version, params.role) {
        (RelayVersion::V1, ConnectionRole::Server) => PeerKind::V1Server,
        (RelayVersion::V1, ConnectionRole::Client) => PeerKind::V1Client,
        (RelayVersion::V2, ConnectionRole::Server) => match &connection_id {
            None => PeerKind::V2ServerControl,
            Some(id) => PeerKind::V2ServerData { connection_id: id.clone() },
        },
        (RelayVersion::V2, ConnectionRole::Client) => match &connection_id {
            Some(id) => PeerKind::V2Client { connection_id: id.clone() },
            None => PeerKind::V2Client { connection_id: String::new() },
        },
    };
    PeerMeta {
        peer_id,
        server_id: params.server_id,
        role: params.role,
        version: params.version,
        connection_id,
        kind,
    }
}

/// Describes a newly accepted socket: a fresh peer id, and a generated connection id
/// for a version 2 client that names none.
pub fn build_peer_meta(params: WsParams) -> (res: PeerMeta)
    ensures
        is_uuid_v4_bits(res.peer_id.0),
        exists|g: Seq<char>|
            (needs_generated_id(params@) ==> is_generated_connection_id(g)) && res@ == #[trigger] meta_for(
                params@,
                res.peer_id,
                g,
            ),
{
    let peer_id = PeerId::new();
    let needs = params.version == RelayVersion::V2 && params.role == ConnectionRole::Client
        && params.connection_id.is_none();
    let generated = if needs {
        Some(generate_connection_id())
    } else {
        None
    };
    let ghost g = opt_chars(generated).unwrap_or(Seq::<char>::empty());
    assert(needs ==> is_generated_connection_id(g));
    let ghost pv = params@;
    let res = peer_meta_from(params, peer_id, generated);
    assert((needs_generated_id(pv) ==> is_generated_connection_id(g)) && res@ == meta_for(pv, res.peer_id, g));
    res
}

} // verus!
