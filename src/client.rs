//! A connected client's session state and its Init message.
use crate::protocol::{decode_demand, is_client_data, parse_client_data, ClientUpdate, Vec3, INIT_TAG};
use crate::wire::{frame, framed, le_u32, push_u32, read_u32};
use vstd::prelude::*;

verus! {

/// Bit pattern of `0.0f32`.
pub const ZERO_BITS: u32 = 0;

/// Bit pattern of `102.0f32`, the height at which clients appear.
pub const SPAWN_HEIGHT_BITS: u32 = 0x42cc_0000;

/// Where a new client appears: `(0.0, 102.0, 0.0)`.
pub open spec fn spawn_position() -> Vec3 {
    Vec3 { x: ZERO_BITS, y: SPAWN_HEIGHT_BITS, z: ZERO_BITS }
}

/// One connected client. Positions and rotations are IEEE-754 bit patterns.
pub struct Client {
    pub id: u32,
    pub position: Vec3,
    pub rotation: Vec3,
    pub state: u32,
    pub chunk_demand: Vec<(i32, i32, i32)>,
    pub packet_count_rx: u64,
}

/// Body of the Init message for a client: tag, id, position, state.
pub open spec fn init_body(id: u32, position: Vec3, state: u32) -> Seq<u8> {
    seq![INIT_TAG] + le_u32(id) + le_u32(position.x) + le_u32(position.y) + le_u32(position.z)
        + le_u32(state)
}

impl Client {
    /// A client that has just connected: at the spawn position, state 0,
    /// demanding nothing.
    pub fn new(id: u32) -> (c: Client)
        ensures
            c.id == id,
            c.position == spawn_position(),
            c.rotation == (Vec3 { x: ZERO_BITS, y: ZERO_BITS, z: ZERO_BITS }),
            c.state == 0,
            c.chunk_demand@.len() == 0,
            c.packet_count_rx == 0,
    {
        Client {
            id,
            position: Vec3 { x: ZERO_BITS, y: SPAWN_HEIGHT_BITS, z: ZERO_BITS },
            rotation: Vec3 { x: ZERO_BITS, y: ZERO_BITS, z: ZERO_BITS },
            state: 0,
            chunk_demand: Vec::new(),
            packet_count_rx: 0,
        }
    }

    /// Takes in a ClientData message: position, rotation, state and demand
    /// are replaced, and one more received packet is counted.
    pub fn apply_update(&mut self, update: ClientUpdate)
        requires
            old(self).packet_count_rx < u64::MAX,
        ensures
            final(self).id == old(self).id,
            final(self).position == update.position,
            final(self).rotation == (Vec3 { x: update.rotation_x, y: update.rotation_y, z: ZERO_BITS }),
            final(self).state == update.state,
            final(self).chunk_demand@ == update.chunk_demand@,
            final(self).packet_count_rx == old(self).packet_count_rx + 1,
    {
        self.position = update.position;
        self.rotation = Vec3 { x: update.rotation_x, y: update.rotation_y, z: ZERO_BITS };
        self.state = update.state;
        self.chunk_demand = update.chunk_demand;
        self.packet_count_rx = self.packet_count_rx + 1;
    }

    /// The Init frame that tells this client who and where it is.
    pub fn client_to_bytes(&self) -> (r: Vec<u8>)
        ensures
            r@ == framed(init_body(self.id, self.position, self.state)),
    {
        let mut body: Vec<u8> = Vec::new();
        body.push(INIT_TAG);
        push_u32(&mut body, self.id);
        push_u32(&mut body, self.position.x);
        push_u32(&mut body, self.position.y);
        push_u32(&mut body, self.position.z);
        push_u32(&mut body, self.state);
        proof {
            crate::wire::lemma_le_u32(self.id);
            crate::wire::lemma_le_u32(self.position.x);
            crate::wire::lemma_le_u32(self.position.y);
            crate::wire::lemma_le_u32(self.position.z);
            crate::wire::lemma_le_u32(self.state);
        }
        frame(body)
    }
}

/// Takes in a ClientData payload (tag byte first) for `client`. `false`, and
/// the client unchanged, when the payload is not ClientData or is shorter
/// than its fixed part.
pub fn process_client_data(data: &[u8], client: &mut Client) -> (r: bool)
    requires
        old(client).packet_count_rx < u64::MAX,
    ensures
        r == is_client_data(data@),
        !r ==> *final(client) == *old(client),
        r ==> {
            &&& final(client).id == old(client).id
            &&& final(client).position == (Vec3 {
                x: read_u32(data@, 5),
                y: read_u32(data@, 9),
                z: read_u32(data@, 13),
            })
            &&& final(client).rotation == (Vec3 {
                x: read_u32(data@, 21),
                y: read_u32(data@, 17),
                z: ZERO_BITS,
            })
            &&& final(client).state == read_u32(data@, 25)
            &&& final(client).chunk_demand@ == decode_demand(data@)
            &&& final(client).packet_count_rx == old(client).packet_count_rx + 1
        },
{
    match parse_client_data(data) {
        Some(update) => {
            client.apply_update(update);
            true
        },
        None => false,
    }
}

} // verus!
