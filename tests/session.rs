use voxel_server::chunk::{Chunk, COLUMN_COUNT};
use voxel_server::client::{process_client_data, Client};
use voxel_server::metrics::{is_metrics_request, ByteRate};
use voxel_server::protocol::{classify, parse_client_data, DataIdentifier, FrameReader, Inbound, Vec3};
use voxel_server::registry::ClientManager;
use voxel_server::scheduler::GenerationScheduler;

use voxel_server::world::{Player, World};

fn client_data(id: u32, pos: (f32, f32, f32), rot: (f32, f32), state: u32, demand: &[(i32, i32, i32)]) -> Vec<u8> {
    let mut p = vec![1u8];
    p.extend(id.to_le_bytes());
    p.extend(pos.0.to_le_bytes());
    p.extend(pos.1.to_le_bytes());
    p.extend(pos.2.to_le_bytes());
    p.extend(rot.0.to_le_bytes());
    p.extend(rot.1.to_le_bytes());
    p.extend(state.to_le_bytes());
    for &(x, z, d) in demand {
        p.extend(x.to_le_bytes());
        p.extend(z.to_le_bytes());
        p.extend(d.to_le_bytes());
    }
    p
}

fn update_for(payload: &[u8]) -> voxel_server::protocol::ClientUpdate {
    match classify(payload) {
        Inbound::ClientData(u) => u,
        _ => panic!("not client data"),
    }
}

fn manager_with(ids: &[u32]) -> ClientManager {
    let mut m = ClientManager::new();
    for &id in ids {
        m.add_client(Client::new(id));
    }
    m
}

#[test]
fn init_handshake_bytes() {
    let c = Client::new(1);
    assert_eq!(
        c.client_to_bytes(),
        vec![
            0x19, 0, 0, 0, 0, 1, 0, 0, 0, 0, 0, 0, 0, 0, 0, 0xcc, 0x42, 0, 0, 0, 0, 0, 0, 0, 0
        ]
    );
    assert_eq!(f32::from_bits(c.position.y), 102.0);
}

#[test]
fn new_client_gets_registry_size_plus_one() {
    let mut m = ClientManager::new();
    assert_eq!(m.next_client_id(), 1);
    m.add_client(Client::new(1));
    m.add_client(Client::new(2));
    assert_eq!(m.next_client_id(), 3);
    assert_eq!(m.client_count(), 2);
}

#[test]
fn client_data_is_parsed_field_by_field() {
    let p = client_data(9, (1.5, -2.0, 3.25), (0.5, -0.75), 4, &[(1, -2, 3)]);
    let u = parse_client_data(&p).unwrap();
    assert_eq!(u.client_id, 9);
    assert_eq!(u.position, Vec3 { x: 1.5f32.to_bits(), y: (-2.0f32).to_bits(), z: 3.25f32.to_bits() });
    assert_eq!(u.rotation_y, 0.5f32.to_bits());
    assert_eq!(u.rotation_x, (-0.75f32).to_bits());
    assert_eq!(u.state, 4);
    assert_eq!(u.chunk_demand, vec![(1, -2, 3)]);
}

#[test]
fn demand_round_trip() {
    let mut m = manager_with(&[1]);
    let demand = [(0, 0, 0), (1, 0, 10), (0, 0, 5)];
    let p = client_data(1, (0.0, 102.0, 0.0), (0.0, 0.0), 0, &demand);
    assert!(m.apply_client_data(1, update_for(&p)));
    let c = m.get_client(1).unwrap();
    assert_eq!(c.chunk_demand, demand.to_vec());
    assert_eq!(c.packet_count_rx, 1);
    assert_eq!(m.calculate_demanded_chunks(), vec![(0, 0, 0), (1, 0, 10)]);
}

#[test]
fn update_replaces_position_rotation_and_state() {
    let mut m = manager_with(&[1]);
    let p = client_data(1, (4.0, 5.0, 6.0), (7.0, 8.0), 3, &[(2, 2, 2)]);
    assert!(m.apply_client_data(1, update_for(&p)));
    let p = client_data(1, (4.0, 5.0, 6.0), (7.0, 8.0), 3, &[]);
    assert!(m.apply_client_data(1, update_for(&p)));
    let c = m.get_client(1).unwrap();
    assert_eq!(c.position, Vec3 { x: 4.0f32.to_bits(), y: 5.0f32.to_bits(), z: 6.0f32.to_bits() });
    assert_eq!(c.rotation, Vec3 { x: 8.0f32.to_bits(), y: 7.0f32.to_bits(), z: 0 });
    assert_eq!(c.state, 3);
    assert!(c.chunk_demand.is_empty());
    assert_eq!(c.packet_count_rx, 2);
}

#[test]
fn trailing_partial_demand_bytes_are_dropped() {
    let mut p = client_data(1, (0.0, 0.0, 0.0), (0.0, 0.0), 0, &[(5, 6, 7), (-1, -1, 1)]);
    p.extend([9, 9, 9, 9, 9, 9, 9, 9, 9, 9, 9]);
    assert_eq!(update_for(&p).chunk_demand, vec![(5, 6, 7), (-1, -1, 1)]);
}

#[test]
fn short_or_mistagged_client_data_is_rejected() {
    let p = client_data(1, (0.0, 0.0, 0.0), (0.0, 0.0), 0, &[]);
    assert_eq!(p.len(), 29);
    assert!(parse_client_data(&p[..28]).is_none());
    assert!(matches!(classify(&p[..28]), Inbound::Malformed));
    let mut q = p.clone();
    q[0] = 3;
    assert!(parse_client_data(&q).is_none());
    assert!(matches!(classify(&q), Inbound::Keepalive));
    assert!(matches!(classify(&[]), Inbound::Malformed));
    assert!(matches!(classify(&[2, 0, 0]), Inbound::ChunkData));
    assert!(matches!(classify(&[9]), Inbound::Unknown(9)));
}

#[test]
fn apply_to_unknown_client_changes_nothing() {
    let mut m = manager_with(&[1]);
    let p = client_data(2, (0.0, 0.0, 0.0), (0.0, 0.0), 0, &[(1, 1, 1)]);
    assert!(!m.apply_client_data(2, update_for(&p)));
    assert_eq!(m.client_count(), 1);
    assert!(m.get_client(1).unwrap().chunk_demand.is_empty());
}

#[test]
fn frame_reader_collects_announced_bytes() {
    let total: u32 = 2500;
    let mut r = FrameReader::for_header(&total.to_le_bytes()).unwrap();
    assert_eq!(r.expected, 2496);
    assert_eq!(r.next_read_len(), 1024);
    r.push_bytes(&[7u8; 1024]);
    assert_eq!(r.next_read_len(), 1024);
    r.push_bytes(&[7u8; 1000]);
    assert!(!r.is_complete());
    assert_eq!(r.next_read_len(), 472);
    r.push_bytes(&[7u8; 472]);
    assert!(r.is_complete());
    assert_eq!(r.next_read_len(), 0);
    assert_eq!(r.received.len(), 2496);
}

#[test]
fn frame_reader_rejects_lengths_below_header() {
    assert!(FrameReader::for_header(&3u32.to_le_bytes()).is_none());
    let r = FrameReader::for_header(&4u32.to_le_bytes()).unwrap();
    assert!(r.is_complete());
}

#[test]
fn data_identifier_tags() {
    assert_eq!(DataIdentifier::InitializeData.tag(), 0);
    assert_eq!(DataIdentifier::ChunkData.tag(), 2);
    assert_eq!(DataIdentifier::from_tag(3), Some(DataIdentifier::Keepalive));
    assert_eq!(DataIdentifier::from_tag(4), Some(DataIdentifier::PlayerData));
    assert_eq!(DataIdentifier::from_tag(5), None);
}

#[test]
fn aggregate_keeps_nearest_and_sorts() {
    let mut m = manager_with(&[1, 2, 3]);
    let a = client_data(1, (0.0, 0.0, 0.0), (0.0, 0.0), 0, &[(0, 0, 4), (1, 1, 9), (2, 2, 1)]);
    let b = client_data(2, (0.0, 0.0, 0.0), (0.0, 0.0), 0, &[(1, 1, 3), (0, 0, 6), (3, 3, 7)]);
    assert!(m.apply_client_data(1, update_for(&a)));
    assert!(m.apply_client_data(2, update_for(&b)));
    let r = m.calculate_demanded_chunks();
    assert_eq!(r, vec![(2, 2, 1), (1, 1, 3), (0, 0, 4), (3, 3, 7)]);
}

#[test]
fn aggregate_of_no_demand_is_empty() {
    let mut m = ClientManager::new();
    assert!(m.calculate_demanded_chunks().is_empty());
    let mut m = manager_with(&[1]);
    assert!(m.calculate_demanded_chunks().is_empty());
}

#[test]
fn on_demand_delivery() {
    let mut world = World::new(Vec::new());
    let heights: Vec<u32> = (0..COLUMN_COUNT as u32).map(|c| 100 + c % 7).collect();
    world.insert_chunk(Chunk::from_height_map(0, 0, &heights));
    let mut m = manager_with(&[1]);
    let p = client_data(1, (0.0, 0.0, 0.0), (0.0, 0.0), 0, &[(0, 0, 0)]);
    assert!(m.apply_client_data(1, update_for(&p)));
    let ready = m.take_ready_chunks(1, &world);
    assert_eq!(ready, vec![(0, 0)]);
    let f = world.chunk_to_bytes_rle(0, 0).unwrap();
    assert_eq!(&f[4..13], &[2, 0, 0, 0, 0, 0, 0, 0, 0]);
    let runs = (f.len() - 13) / 2;
    assert_eq!(u32::from_le_bytes([f[0], f[1], f[2], f[3]]) as usize, 9 + 2 * runs + 4);
    let mut ids = Vec::new();
    for pair in f[13..].chunks(2) {
        for _ in 0..pair[0] {
            ids.push(pair[1]);
        }
    }
    let expected: Vec<u8> = world.get_chunk(0, 0).unwrap().voxels.iter().map(|v| v.id).collect();
    assert_eq!(ids, expected);
    assert!(m.get_client(1).unwrap().chunk_demand.is_empty());
}

#[test]
fn partial_fulfilment() {
    let mut world = World::new(Vec::new());
    world.insert_chunk(Chunk::from_height_map(0, 0, &vec![120u32; COLUMN_COUNT]));
    let mut m = manager_with(&[1]);
    let p = client_data(1, (0.0, 0.0, 0.0), (0.0, 0.0), 0, &[(5, 5, 1), (0, 0, 2)]);
    assert!(m.apply_client_data(1, update_for(&p)));
    assert_eq!(m.take_ready_chunks(1, &world), vec![(0, 0)]);
    assert_eq!(m.get_client(1).unwrap().chunk_demand, vec![(5, 5, 1)]);
    // not sent again until demanded again
    assert!(m.take_ready_chunks(1, &world).is_empty());
    world.insert_chunk(Chunk::from_height_map(5, 5, &vec![120u32; COLUMN_COUNT]));
    assert_eq!(m.take_ready_chunks(1, &world), vec![(5, 5)]);
    assert!(m.get_client(1).unwrap().chunk_demand.is_empty());
    assert!(m.take_ready_chunks(7, &world).is_empty());
}

#[test]
fn disconnect_cleanup() {
    let mut m = manager_with(&[1, 2]);
    m.remove_client(1);
    assert!(m.get_client(1).is_none());
    assert!(m.get_client(2).is_some());
    assert_eq!(m.client_count(), 1);
    m.remove_client(1);
    assert_eq!(m.client_count(), 1);
}

#[test]
fn generation_dedup() {
    let mut m = manager_with(&[1, 2]);
    let a = client_data(1, (0.0, 0.0, 0.0), (0.0, 0.0), 0, &[(3, 4, 8)]);
    let b = client_data(2, (0.0, 0.0, 0.0), (0.0, 0.0), 0, &[(3, 4, 2)]);
    assert!(m.apply_client_data(1, update_for(&a)));
    assert!(m.apply_client_data(2, update_for(&b)));
    let demand = m.calculate_demanded_chunks();
    assert_eq!(demand, vec![(3, 4, 2)]);
    let mut s = GenerationScheduler::new();
    assert_eq!(s.plan(&demand), vec![(3, 4)]);
    assert!(s.is_generated(3, 4));
    assert!(!s.is_generated(4, 3));
}

#[test]
fn second_pass_generates_nothing() {
    let demand = vec![(1, 1, 0), (2, 2, 1), (1, 1, 5), (-3, 0, 9)];
    let mut s = GenerationScheduler::new();
    assert_eq!(s.plan(&demand), vec![(1, 1), (2, 2), (-3, 0)]);
    assert!(s.plan(&demand).is_empty());
    assert_eq!(s.plan(&vec![(2, 2, 0), (0, -3, 0)]), vec![(0, -3)]);
}

#[test]
fn players_are_kept_by_id() {
    let mut w = World::new(Vec::new());
    let pos = Vec3 { x: 0, y: 102.0f32.to_bits(), z: 0 };
    w.add_player(Player::new(3, pos, 0));
    assert_eq!(w.get_player(3).unwrap().position, pos);
    assert!(w.get_player(4).is_none());
    w.remove_player(3);
    assert!(w.get_player(3).is_none());
}

#[test]
fn all_client_data_lists_each_client_once() {
    let m = manager_with(&[4, 9]);
    let mut r = m.get_all_client_data();
    r.sort_by_key(|e| e.0);
    assert_eq!(r.len(), 2);
    assert_eq!(r[0].0, 4);
    assert_eq!(r[1].0, 9);
    assert_eq!(r[1].1, Vec3 { x: 0, y: 0x42cc_0000, z: 0 });
}

#[test]
fn metrics_route() {
    assert!(is_metrics_request(b"GET /metrics HTTP/1.1\r\nHost: x\r\n\r\n"));
    assert!(is_metrics_request(b"GET /metrics"));
    assert!(!is_metrics_request(b"GET / HTTP/1.1\r\n\r\n"));
    assert!(!is_metrics_request(b"GET /metric"));
    assert!(!is_metrics_request(b"POST /metrics HTTP/1.1"));
}

#[test]
fn byte_rate_samples_growth() {
    let mut r = ByteRate::new(100, 50);
    assert_eq!(r.sample(160, 50), (60, 0));
    assert_eq!(r.sample(160, 75), (0, 25));
    assert_eq!(r.sample(10, 0), (0, 0));
    assert_eq!(r.last_egress, 10);
}

#[test]
fn process_client_data_updates_one_client() {
    let mut c = Client::new(5);
    let p = client_data(5, (1.0, 2.0, 3.0), (0.25, 0.5), 7, &[(8, 9, 10)]);
    assert!(process_client_data(&p, &mut c));
    assert_eq!(c.position, Vec3 { x: 1.0f32.to_bits(), y: 2.0f32.to_bits(), z: 3.0f32.to_bits() });
    assert_eq!(c.rotation, Vec3 { x: 0.5f32.to_bits(), y: 0.25f32.to_bits(), z: 0 });
    assert_eq!(c.state, 7);
    assert_eq!(c.chunk_demand, vec![(8, 9, 10)]);
    assert_eq!(c.packet_count_rx, 1);
    assert!(!process_client_data(&p[..20], &mut c));
    assert_eq!(c.packet_count_rx, 1);
    assert_eq!(c.chunk_demand, vec![(8, 9, 10)]);
}

#[test]
fn scheduler_starts_from_the_world_chunks() {
    let start = vec![
        Chunk::from_height_map(0, 0, &vec![120u32; COLUMN_COUNT]),
        Chunk::from_height_map(1, 0, &vec![120u32; COLUMN_COUNT]),
    ];
    let world = World::new(start);
    let mut s = GenerationScheduler::for_world(&world);
    assert!(s.is_generated(0, 0));
    assert!(s.is_generated(1, 0));
    assert!(!s.is_generated(0, 1));
    assert_eq!(s.plan(&vec![(0, 0, 0), (0, 1, 1), (1, 0, 2)]), vec![(0, 1)]);
}
