use voxel_server::chunk::{Chunk, Voxel, CHUNK_HEIGHT, CHUNK_SIZE, CHUNK_VOLUME, COLUMN_COUNT};
use voxel_server::world::World;

fn sloped_heights() -> Vec<u32> {
    (0..COLUMN_COUNT as u32).map(|c| 99 + (c / 64) + (c % 64) / 2).collect()
}

fn decode_runs(frame: &[u8]) -> Vec<u8> {
    let mut ids = Vec::new();
    let mut k = 13;
    while k + 1 < frame.len() {
        for _ in 0..frame[k] {
            ids.push(frame[k + 1]);
        }
        k += 2;
    }
    ids
}

#[test]
fn voxel_new_keeps_fields() {
    let v = Voxel::new(7, 1);
    assert_eq!(v.index, 7);
    assert_eq!(v.id, 1);
}

#[test]
fn generated_chunk_has_fixed_size_and_coherent_indices() {
    let c = Chunk::from_height_map(3, -2, &sloped_heights());
    assert_eq!(c.coords, (3, -2));
    assert_eq!(c.voxels.len(), 64 * 64 * 256);
    assert_eq!(c.voxels.len(), CHUNK_VOLUME);
    for (i, v) in c.voxels.iter().enumerate() {
        assert_eq!(v.index as usize, i);
    }
}

#[test]
fn generation_is_deterministic() {
    let a = Chunk::from_height_map(1, 1, &sloped_heights());
    let b = Chunk::from_height_map(1, 1, &sloped_heights());
    let ida: Vec<u8> = a.voxels.iter().map(|v| v.id).collect();
    let idb: Vec<u8> = b.voxels.iter().map(|v| v.id).collect();
    assert_eq!(ida, idb);
    assert_eq!(a.to_bytes_rle(), b.to_bytes_rle());
}

#[test]
fn voxel_is_solid_up_to_its_column_floor() {
    let heights = sloped_heights();
    let c = Chunk::from_height_map(0, 0, &heights);
    for &(x, z) in &[(0usize, 0usize), (31, 31), (63, 5), (10, 63)] {
        let floor = heights[x * CHUNK_SIZE + z] as usize;
        for y in 0..CHUNK_HEIGHT {
            let v = c.voxels[y * CHUNK_SIZE * CHUNK_SIZE + x * CHUNK_SIZE + z];
            assert_eq!(v.id, if y <= floor { 1 } else { 0 }, "x {} y {} z {}", x, y, z);
        }
    }
}

#[test]
fn raw_dump_layout() {
    let c = Chunk::from_height_map(-1, 2, &vec![0u32; COLUMN_COUNT]);
    let b = c.to_bytes();
    assert_eq!(b.len(), 9 + 5 * CHUNK_VOLUME);
    assert_eq!(b[0], 1);
    assert_eq!(&b[1..5], &(-1i32).to_le_bytes());
    assert_eq!(&b[5..9], &2i32.to_le_bytes());
    // voxel 0 (y = 0) is solid, voxel 4096 (y = 1) is air
    assert_eq!(&b[9..14], &[0, 0, 0, 0, 1]);
    let at = 9 + 5 * 4096;
    assert_eq!(&b[at..at + 5], &[0, 16, 0, 0, 0]);
}

#[test]
fn rle_frame_decodes_to_the_chunk_ids() {
    let c = Chunk::from_height_map(0, 0, &sloped_heights());
    let f = c.to_bytes_rle();
    assert_eq!(u32::from_le_bytes([f[0], f[1], f[2], f[3]]) as usize, f.len());
    assert_eq!(&f[4..13], &[2, 0, 0, 0, 0, 0, 0, 0, 0]);
    assert_eq!((f.len() - 13) % 2, 0);
    let ids: Vec<u8> = c.voxels.iter().map(|v| v.id).collect();
    assert_eq!(decode_runs(&f), ids);
}

#[test]
fn rle_runs_saturate_at_255() {
    // every floor at 0: one solid layer of 4096 voxels, then air
    let c = Chunk::from_height_map(0, 0, &vec![0u32; COLUMN_COUNT]);
    let f = c.to_bytes_rle();
    let runs: Vec<(u8, u8)> = f[13..].chunks(2).map(|p| (p[0], p[1])).collect();
    // 4096 = 16 * 255 + 16
    for r in &runs[..16] {
        assert_eq!(*r, (255, 1));
    }
    assert_eq!(runs[16], (16, 1));
    assert_eq!(runs[17], (255, 0));
    // 255 * 4096 air voxels = 4096 full runs; the final run is emitted too
    assert_eq!(runs.len(), 17 + 4096);
    assert_eq!(*runs.last().unwrap(), (255, 0));
    assert_eq!(f.len(), 13 + 2 * runs.len());
    assert_eq!(decode_runs(&f).len(), CHUNK_VOLUME);
}

#[test]
fn world_serves_stored_chunks_only() {
    let mut world = World::new(Vec::new());
    assert!(world.chunk_to_bytes_rle(0, 0).is_none());
    let c = Chunk::from_height_map(4, -7, &sloped_heights());
    let expected = c.to_bytes_rle();
    assert!(world.insert_chunk(c));
    assert!(world.contains_chunk(4, -7));
    assert!(!world.contains_chunk(-7, 4));
    assert_eq!(world.get_chunk(4, -7).unwrap().coords, (4, -7));
    assert!(world.get_chunk(0, 0).is_none());
    assert_eq!(world.chunk_to_bytes_rle(4, -7).unwrap(), expected);
}

#[test]
fn stored_chunks_are_never_replaced() {
    let mut world = World::new(Vec::new());
    assert!(world.insert_chunk(Chunk::from_height_map(2, 3, &vec![100u32; COLUMN_COUNT])));
    let before = world.chunk_to_bytes_rle(2, 3).unwrap();
    assert!(!world.insert_chunk(Chunk::from_height_map(2, 3, &vec![200u32; COLUMN_COUNT])));
    assert_eq!(world.chunk_to_bytes_rle(2, 3).unwrap(), before);
    assert_eq!(world.keys.len(), 1);
}

#[test]
fn start_chunks_are_stored_and_spawn_located() {
    let mut heights = vec![150u32; COLUMN_COUNT];
    heights[31 * 64 + 31] = 100;
    let start = vec![
        Chunk::from_height_map(0, 0, &heights),
        Chunk::from_height_map(0, 1, &sloped_heights()),
        Chunk::from_height_map(1, 0, &sloped_heights()),
        Chunk::from_height_map(1, 1, &sloped_heights()),
    ];
    let world = World::new(start);
    for &(x, z) in &[(0, 0), (0, 1), (1, 0), (1, 1)] {
        assert!(world.contains_chunk(x, z));
    }
    assert!(!world.contains_chunk(2, 0));
    assert_eq!(world.spawn, (31, 101, 31));
}

#[test]
fn spawn_stays_at_origin_without_chunk_zero() {
    let world = World::new(vec![Chunk::from_height_map(1, 0, &sloped_heights())]);
    assert_eq!(world.spawn, (0, 0, 0));
    let world = World::new(Vec::new());
    assert_eq!(world.spawn, (0, 0, 0));
}

#[test]
fn spawn_unchanged_when_column_is_full() {
    let mut world = World::new(vec![Chunk::from_height_map(0, 0, &vec![255u32; COLUMN_COUNT])]);
    assert_eq!(world.spawn, (0, 0, 0));
    world.locate_spawn();
    assert_eq!(world.spawn, (0, 0, 0));
}
