//! Message tags of the framed protocol and the ClientData payload.
use crate::wire::{get_i32, get_u32, le_i32, lemma_le_i32, read_i32, read_u32, HEADER_LEN};
use vstd::prelude::*;

verus! {

/// Tag of the Init message, server to client.
pub const INIT_TAG: u8 = 0;

/// Tag of the ClientData message, client to server.
pub const CLIENT_DATA_TAG: u8 = 1;

/// Tag of the ChunkData message, server to client.
pub const CHUNK_DATA_TAG: u8 = 2;

/// Tag of the Keepalive message, either way.
pub const KEEPALIVE_TAG: u8 = 3;

/// Tag reserved for player data.
pub const PLAYER_DATA_TAG: u8 = 4;

/// The kinds of message, each named by its tag byte.
#[derive(Clone, Copy, Debug, PartialEq, Eq, Structural)]
pub enum DataIdentifier {
    InitializeData,
    ClientData,
    ChunkData,
    Keepalive,
    PlayerData,
}

impl DataIdentifier {
    /// The tag byte of this kind.
    pub open spec fn spec_tag(self) -> u8 {
        match self {
            DataIdentifier::InitializeData => INIT_TAG,
            DataIdentifier::ClientData => CLIENT_DATA_TAG,
            DataIdentifier::ChunkData => CHUNK_DATA_TAG,
            DataIdentifier::Keepalive => KEEPALIVE_TAG,
            DataIdentifier::PlayerData => PLAYER_DATA_TAG,
        }
    }

    /// The tag byte of this kind.
    pub fn tag(self) -> (r: u8)
        ensures
            r == self.spec_tag(),
    {
        match self {
            DataIdentifier::InitializeData => INIT_TAG,
            DataIdentifier::ClientData => CLIENT_DATA_TAG,
            DataIdentifier::ChunkData => CHUNK_DATA_TAG,
            DataIdentifier::Keepalive => KEEPALIVE_TAG,
            DataIdentifier::PlayerData => PLAYER_DATA_TAG,
        }
    }

    /// The kind that `tag` names, if any.
    pub fn from_tag(tag: u8) -> (r: Option<DataIdentifier>)
        ensures
            match r {
                Some(d) => d.spec_tag() == tag,
                None => tag > PLAYER_DATA_TAG,
            },
    {
        if tag == INIT_TAG {
            Some(DataIdentifier::InitializeData)
        } else if tag == CLIENT_DATA_TAG {
            Some(DataIdentifier::ClientData)
        } else if tag == CHUNK_DATA_TAG {
            Some(DataIdentifier::ChunkData)
        } else if tag == KEEPALIVE_TAG {
            Some(DataIdentifier::Keepalive)
        } else if tag == PLAYER_DATA_TAG {
            Some(DataIdentifier::PlayerData)
        } else {
            None
        }
    }
}

/// Bytes of the fixed part of a ClientData payload, tag included: tag,
/// client id, three position words, two rotation words, state.
pub const CLIENT_DATA_PREFIX: usize = 29;

/// Bytes of one demand entry: chunk x, chunk z, distance.
pub const DEMAND_ENTRY_LEN: usize = 12;

/// Three single-precision floats, each held as its IEEE-754 bit pattern.
#[derive(Clone, Copy, Debug, PartialEq, Eq, Structural)]
pub struct Vec3 {
    pub x: u32,
    pub y: u32,
    pub z: u32,
}

/// What a ClientData payload carries.
pub struct ClientUpdate {
    pub client_id: u32,
    pub position: Vec3,
    pub rotation_y: u32,
    pub rotation_x: u32,
    pub state: u32,
    pub chunk_demand: Vec<(i32, i32, i32)>,
}

/// A payload is a ClientData message with its whole fixed part.
pub open spec fn is_client_data(p: Seq<u8>) -> bool {
    p.len() >= CLIENT_DATA_PREFIX && p[0] == CLIENT_DATA_TAG
}

/// Number of whole demand entries after the fixed part.
pub open spec fn demand_count(p: Seq<u8>) -> int {
    (p.len() - CLIENT_DATA_PREFIX) / (DEMAND_ENTRY_LEN as int)
}

/// Demand entry `k` of a ClientData payload.
pub open spec fn demand_at(p: Seq<u8>, k: int) -> (i32, i32, i32) {
    let at = CLIENT_DATA_PREFIX + DEMAND_ENTRY_LEN * k;
    (read_i32(p, at), read_i32(p, at + 4), read_i32(p, at + 8))
}

/// The demand entries of a ClientData payload, in order; trailing bytes
/// short of a whole entry are left out.
pub open spec fn decode_demand(p: Seq<u8>) -> Seq<(i32, i32, i32)> {
    Seq::new(demand_count(p) as nat, |k: int| demand_at(p, k))
}

/// Bytes of one demand entry.
pub open spec fn demand_entry_bytes(t: (i32, i32, i32)) -> Seq<u8> {
    le_i32(t.0) + le_i32(t.1) + le_i32(t.2)
}

/// Bytes of a demand list, entry after entry.
pub open spec fn demand_bytes(ts: Seq<(i32, i32, i32)>) -> Seq<u8>
    decreases ts.len(),
{
    if ts.len() == 0 {
        Seq::empty()
    } else {
        demand_bytes(ts.drop_last()) + demand_entry_bytes(ts.last())
    }
}

proof fn lemma_demand_bytes_layout(ts: Seq<(i32, i32, i32)>)
    ensures
        demand_bytes(ts).len() == 12 * ts.len(),
        forall|k: int|
            0 <= k < ts.len() ==> demand_bytes(ts).subrange(12 * k, 12 * k + 12)
                == demand_entry_bytes(#[trigger] ts[k]),
    decreases ts.len(),
{
    if ts.len() > 0 {
        let p = ts.drop_last();
        lemma_demand_bytes_layout(p);
        let last = ts.last();
        lemma_le_i32(last.0);
        lemma_le_i32(last.1);
        lemma_le_i32(last.2);
        let b = demand_bytes(ts);
        assert forall|k: int| 0 <= k < ts.len() implies b.subrange(12 * k, 12 * k + 12)
            == demand_entry_bytes(#[trigger] ts[k]) by {
            if k < p.len() {
                assert(ts[k] == p[k]);
                assert(b.subrange(12 * k, 12 * k + 12) =~= demand_bytes(p).subrange(
                    12 * k,
                    12 * k + 12,
                ));
            } else {
                assert(b.subrange(12 * k, 12 * k + 12) =~= demand_entry_bytes(last));
            }
        }
    }
}

/// A ClientData payload made of a fixed part and the encoded entries `ts`,
/// with fewer than `DEMAND_ENTRY_LEN` stray bytes after them, decodes to
/// exactly `ts`, in order.
pub proof fn lemma_demand_round_trip(
    prefix: Seq<u8>,
    ts: Seq<(i32, i32, i32)>,
    tail: Seq<u8>,
)
    requires
        prefix.len() == CLIENT_DATA_PREFIX,
        prefix[0] == CLIENT_DATA_TAG,
        tail.len() < DEMAND_ENTRY_LEN,
    ensures
        is_client_data(prefix + demand_bytes(ts) + tail),
        decode_demand(prefix + demand_bytes(ts) + tail) == ts,
{
    let db = demand_bytes(ts);
    let p = prefix + db + tail;
    lemma_demand_bytes_layout(ts);
    vstd::arithmetic::div_mod::lemma_fundamental_div_mod_converse(
        p.len() - CLIENT_DATA_PREFIX,
        12,
        ts.len() as int,
        tail.len() as int,
    );
    assert(demand_count(p) == ts.len());
    assert forall|k: int| 0 <= k < ts.len() implies #[trigger] decode_demand(p)[k] == ts[k] by {
        let t = ts[k];
        let at = 29 + 12 * k;
        let e = db.subrange(12 * k, 12 * k + 12);
        assert(e == demand_entry_bytes(t));
        lemma_le_i32(t.0);
        lemma_le_i32(t.1);
        lemma_le_i32(t.2);
        let w = p.subrange(at, at + 12);
        assert(w =~= e);
        assert(w.subrange(0, 4) =~= le_i32(t.0));
        assert(w.subrange(4, 8) =~= le_i32(t.1));
        assert(w.subrange(8, 12) =~= le_i32(t.2));
        assert(p.subrange(at, at + 4) =~= w.subrange(0, 4));
        assert(p.subrange(at + 4, at + 8) =~= w.subrange(4, 8));
        assert(p.subrange(at + 8, at + 12) =~= w.subrange(8, 12));
    }
    assert(decode_demand(p) =~= ts);
}

/// Reads a ClientData payload (tag byte first, length header stripped).
/// Gives `None` when the payload is not ClientData or is shorter than its
/// fixed part.
pub fn parse_client_data(payload: &[u8]) -> (r: Option<ClientUpdate>)
    ensures
        r is Some <==> is_client_data(payload@),
        r matches Some(u) ==> {
            &&& u.client_id == read_u32(payload@, 1)
            &&& u.position == Vec3 {
                x: read_u32(payload@, 5),
                y: read_u32(payload@, 9),
                z: read_u32(payload@, 13),
            }
            &&& u.rotation_y == read_u32(payload@, 17)
            &&& u.rotation_x == read_u32(payload@, 21)
            &&& u.state == read_u32(payload@, 25)
            &&& u.chunk_demand@ == decode_demand(payload@)
        },
{
    let len = payload.len();
    if len < CLIENT_DATA_PREFIX || payload[0] != CLIENT_DATA_TAG {
        return None;
    }
    let client_id = get_u32(payload, 1);
    let position = Vec3 { x: get_u32(payload, 5), y: get_u32(payload, 9), z: get_u32(payload, 13) };
    let rotation_y = get_u32(payload, 17);
    let rotation_x = get_u32(payload, 21);
    let state = get_u32(payload, 25);
    let mut chunk_demand: Vec<(i32, i32, i32)> = Vec::new();
    let mut at: usize = CLIENT_DATA_PREFIX;
    while len >= DEMAND_ENTRY_LEN && at <= len - DEMAND_ENTRY_LEN
        invariant
            len == payload@.len(),
            len >= CLIENT_DATA_PREFIX,
            at == CLIENT_DATA_PREFIX + DEMAND_ENTRY_LEN * chunk_demand@.len(),
            at <= len,
            forall|k: int|
                0 <= k < chunk_demand@.len() ==> #[trigger] chunk_demand@[k] == demand_at(
                    payload@,
                    k,
                ),
        decreases len - at,
    {
        let x = get_i32(payload, at);
        let z = get_i32(payload, at + 4);
        let distance = get_i32(payload, at + 8);
        chunk_demand.push((x, z, distance));
        at = at + DEMAND_ENTRY_LEN;
    }
    proof {
        vstd::arithmetic::div_mod::lemma_fundamental_div_mod_converse(
            len - CLIENT_DATA_PREFIX,
            12,
            chunk_demand@.len() as int,
            len - at,
        );
    }
    assert(chunk_demand@ =~= decode_demand(payload@));
    Some(ClientUpdate { client_id, position, rotation_y, rotation_x, state, chunk_demand })
}

/// Most bytes asked of a socket in one read, or handed to it in one write.
pub const IO_SLICE: usize = 1024;

/// Collects the payload of one incoming frame: the bytes after the length
/// header, the tag byte first.
pub struct FrameReader {
    pub expected: usize,
    pub received: Vec<u8>,
}

impl FrameReader {
    /// Never more bytes than the header announced.
    pub open spec fn wf(&self) -> bool {
        self.received@.len() <= self.expected
    }

    /// Starts a frame from its four header bytes. `None` when the announced
    /// total length is shorter than the header itself.
    pub fn for_header(header: &[u8]) -> (r: Option<FrameReader>)
        requires
            header@.len() == HEADER_LEN,
        ensures
            r is None <==> read_u32(header@, 0) < HEADER_LEN,
            r matches Some(f) ==> {
                &&& f.wf()
                &&& f.expected == read_u32(header@, 0) - HEADER_LEN
                &&& f.received@.len() == 0
            },
    {
        let total = get_u32(header, 0);
        if (total as usize) < HEADER_LEN {
            None
        } else {
            Some(FrameReader { expected: total as usize - HEADER_LEN, received: Vec::new() })
        }
    }

    /// Size of the next read: what is missing, at most `IO_SLICE`.
    pub fn next_read_len(&self) -> (r: usize)
        requires
            self.wf(),
        ensures
            r == if self.expected - self.received@.len() < IO_SLICE {
                self.expected - self.received@.len()
            } else {
                IO_SLICE as int
            },
    {
        let missing = self.expected - self.received.len();
        if missing < IO_SLICE {
            missing
        } else {
            IO_SLICE
        }
    }

    /// Adds bytes just read.
    pub fn push_bytes(&mut self, bytes: &[u8])
        requires
            old(self).wf(),
            old(self).received@.len() + bytes@.len() <= old(self).expected,
        ensures
            final(self).wf(),
            final(self).expected == old(self).expected,
            final(self).received@ == old(self).received@ + bytes@,
    {
        let mut k: usize = 0;
        let ghost start = self.received@;
        while k < bytes.len()
            invariant
                k <= bytes@.len(),
                self.expected == old(self).expected,
                start == old(self).received@,
                start.len() + bytes@.len() <= self.expected,
                self.received@ == start + bytes@.take(k as int),
            decreases bytes@.len() - k,
        {
            self.received.push(bytes[k]);
            assert(bytes@.take(k + 1) =~= bytes@.take(k as int).push(bytes@[k as int]));
            k = k + 1;
        }
        assert(bytes@.take(k as int) =~= bytes@);
    }

    /// All announced bytes have come.
    pub fn is_complete(&self) -> (r: bool)
        ensures
            r == (self.received@.len() == self.expected),
    {
        self.received.len() == self.expected
    }
}

/// What the ingress side makes of one complete payload.
pub enum Inbound {
    /// A ClientData message, read.
    ClientData(ClientUpdate),
    /// A ChunkData message, which a server ignores.
    ChunkData,
    /// A Keepalive, which asks nothing.
    Keepalive,
    /// ClientData shorter than its fixed part, or an empty payload.
    Malformed,
    /// A tag that names no message a server takes.
    Unknown(u8),
}

/// Dispatches a payload on its tag byte.
pub fn classify(payload: &[u8]) -> (r: Inbound)
    ensures
        payload@.len() == 0 ==> r is Malformed,
        payload@.len() > 0 ==> {
            let tag = payload@[0];
            &&& tag == CLIENT_DATA_TAG ==> match r {
                Inbound::ClientData(u) => is_client_data(payload@) && u.chunk_demand@
                    == decode_demand(payload@) && u.client_id == read_u32(payload@, 1)
                    && u.position == Vec3 {
                    x: read_u32(payload@, 5),
                    y: read_u32(payload@, 9),
                    z: read_u32(payload@, 13),
                } && u.rotation_y == read_u32(payload@, 17) && u.rotation_x == read_u32(
                    payload@,
                    21,
                ) && u.state == read_u32(payload@, 25),
                Inbound::Malformed => !is_client_data(payload@),
                _ => false,
            }
            &&& tag == CHUNK_DATA_TAG ==> r is ChunkData
            &&& tag == KEEPALIVE_TAG ==> r is Keepalive
            &&& (tag != CLIENT_DATA_TAG && tag != CHUNK_DATA_TAG && tag != KEEPALIVE_TAG)
                ==> r == Inbound::Unknown(tag)
        },
{
    if payload.len() == 0 {
        return Inbound::Malformed;
    }
    let tag = payload[0];
    if tag == CLIENT_DATA_TAG {
        match parse_client_data(payload) {
            Some(u) => Inbound::ClientData(u),
            None => Inbound::Malformed,
        }
    } else if tag == CHUNK_DATA_TAG {
        Inbound::ChunkData
    } else if tag == KEEPALIVE_TAG {
        Inbound::Keepalive
    } else {
        Inbound::Unknown(tag)
    }
}

} // verus!
