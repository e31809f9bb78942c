use bevy_voxel::lighting::light_map_update;
use bevy_voxel::lod_tree::Voxel;
use bevy_voxel::shading::{face_samples, neighbours_lit, smooth_light};
use bevy_voxel::mesh::{generate_chunk_mesh, quad_indices, Block, Color, Face, Geometry, MeshType, Quad, Shade};
use bevy_voxel::terrain::{lod_for, ColumnQuery, Filter};
use bevy_voxel::updates::{ChunkUpdate, MapUpdates};
use bevy_voxel::world::{Chunk, ChunkMap};

fn stone() -> Block {
    Block {
        shade: Shade::full(),
        color: Color { r: 128, g: 128, b: 128, a: 255 },
        mesh_type: MeshType::Cube,
    }
}

fn glass() -> Block {
    Block {
        shade: Shade::full(),
        color: Color { r: 200, g: 200, b: 255, a: 100 },
        mesh_type: MeshType::Cube,
    }
}

fn faces(quads: &[Quad], at: (i32, i32, i32)) -> Vec<Face> {
    quads
        .iter()
        .filter(|q| (q.x, q.y, q.z) == at)
        .filter_map(|q| match q.geometry {
            Geometry::Face(f) => Some(f),
            Geometry::Cross => None,
        })
        .collect()
}

#[test]
fn shared_face_is_culled() {
    let map: ChunkMap<Block> = ChunkMap::new();
    let mut chunk = Chunk::new(2, (0, 0, 0));
    chunk.insert((0, 0, 0), stone());
    chunk.insert((0, 0, 1), stone());
    let (opaque, clear) = generate_chunk_mesh(&map, &chunk);
    assert!(clear.is_none());
    let opaque = opaque.unwrap();
    assert_eq!(faces(&opaque, (0, 0, 0)), vec![Face::Top, Face::Left]);
    assert_eq!(faces(&opaque, (0, 0, 1)), vec![Face::Top, Face::Front, Face::Left]);
    assert_eq!(opaque.len(), 5);
}

#[test]
fn boundary_face_needs_a_neighbour() {
    let mut chunk = Chunk::new(2, (0, 0, 0));
    chunk.insert((1, 1, 3), stone());

    let map: ChunkMap<Block> = ChunkMap::new();
    let (opaque, _) = generate_chunk_mesh(&map, &chunk);
    assert!(!faces(&opaque.unwrap(), (1, 1, 3)).contains(&Face::Front));

    let mut map: ChunkMap<Block> = ChunkMap::new();
    map.insert(Chunk::new(2, (0, 0, 4)));
    let (opaque, _) = generate_chunk_mesh(&map, &chunk);
    assert!(faces(&opaque.unwrap(), (1, 1, 3)).contains(&Face::Front));

    let mut map: ChunkMap<Block> = ChunkMap::new();
    let mut next = Chunk::new(2, (0, 0, 4));
    next.insert((1, 1, 0), stone());
    map.insert(next);
    let (opaque, _) = generate_chunk_mesh(&map, &chunk);
    let shown = faces(&opaque.unwrap(), (1, 1, 3));
    assert!(!shown.contains(&Face::Front));
    assert_eq!(shown.len(), 5);
}

#[test]
fn transparent_blocks_go_apart() {
    let map: ChunkMap<Block> = ChunkMap::new();
    let mut chunk = Chunk::new(2, (0, 0, 0));
    chunk.insert((1, 1, 1), glass());
    chunk.insert((1, 1, 2), glass());
    chunk.insert((2, 1, 1), stone());
    let (opaque, clear) = generate_chunk_mesh(&map, &chunk);
    let clear = clear.unwrap();
    assert!(!faces(&clear, (1, 1, 1)).contains(&Face::Front));
    assert!(faces(&clear, (1, 1, 1)).contains(&Face::Left));
    let opaque = opaque.unwrap();
    assert!(faces(&opaque, (2, 1, 1)).contains(&Face::Right));
    assert_eq!(faces(&opaque, (2, 1, 1)).len(), 6);
}

#[test]
fn cross_blocks_are_always_drawn() {
    let map: ChunkMap<Block> = ChunkMap::new();
    let mut chunk = Chunk::new(2, (0, 0, 0));
    let grass = Block { mesh_type: MeshType::Cross, ..stone() };
    chunk.insert((0, 0, 0), grass);
    let (opaque, clear) = generate_chunk_mesh(&map, &chunk);
    assert!(clear.is_none());
    let opaque = opaque.unwrap();
    assert_eq!(opaque.len(), 1);
    assert_eq!(opaque[0].geometry, Geometry::Cross);
    assert!(!grass.solid());
}

#[test]
fn empty_chunk_has_no_mesh() {
    let map: ChunkMap<Block> = ChunkMap::new();
    let chunk: Chunk<Block> = Chunk::new(3, (8, 8, 8));
    let (opaque, clear) = generate_chunk_mesh(&map, &chunk);
    assert!(opaque.is_none() && clear.is_none());
}

#[test]
fn block_average_mixes_colour_and_keeps_brightest_shade() {
    let mut a = stone();
    a.set_shade(Face::Top, 10);
    let mut b = glass();
    b.set_shade(Face::Top, 30);
    let avg = Block::average(&vec![a, b]).unwrap();
    assert_eq!(avg.color, Color { r: 164, g: 164, b: 191, a: 177 });
    assert_eq!(avg.shade(Face::Top), 30);
    assert_eq!(avg.shade(Face::Bottom), 255);
    assert_eq!(Block::average(&vec![a]), Some(a));
    assert_eq!(Block::average(&vec![]), None);
}

#[test]
fn world_index_finds_replaces_and_removes() {
    let mut map: ChunkMap<i32> = ChunkMap::new();
    let mut a = Chunk::new(1, (0, 0, 0));
    a.insert((0, 0, 0), 1);
    map.insert(a);
    let mut b = Chunk::new(1, (2, 0, 0));
    b.insert((0, 0, 0), 2);
    map.insert(b);
    assert_eq!(map.get((2, 0, 0)).unwrap().get((0, 0, 0)), Some(2));
    assert_eq!(map.get((0, 0, 0)).unwrap().get((0, 0, 0)), Some(1));
    assert!(map.get((4, 0, 0)).is_none());

    let mut c = Chunk::new(1, (0, 0, 0));
    c.insert((0, 0, 0), 3);
    map.insert(c);
    assert_eq!(map.iter().len(), 2);
    assert_eq!(map.get((0, 0, 0)).unwrap().get((0, 0, 0)), Some(3));

    let removed = map.remove((0, 0, 0)).unwrap();
    assert_eq!(removed.position(), (0, 0, 0));
    assert!(map.get((0, 0, 0)).is_none());
    assert_eq!(map.get((2, 0, 0)).unwrap().get((0, 0, 0)), Some(2));
    assert!(map.remove((0, 0, 0)).is_none());
    assert_eq!(map.iter().len(), 1);
}

#[test]
fn chunk_light_and_lod() {
    let mut chunk: Chunk<i32> = Chunk::new(2, (4, 0, 0));
    assert!(!chunk.has_light());
    chunk.insert_light((1, 2, 3), 1);
    chunk.set_light(true);
    assert!(chunk.has_light());
    assert_eq!(chunk.light((1, 2, 3)), Some(1));
    assert_eq!(chunk.light((0, 0, 0)), None);
    assert_eq!(chunk.width(), 4);
    chunk.set_lod(1);
    assert_eq!(chunk.lod(), 1);
    assert!(!chunk.contains_key((0, 0, 0)));
}

#[test]
fn upgrade_only_never_downgrade() {
    let mut q = MapUpdates::new();
    assert!(q.upsert((0, 0, 0), ChunkUpdate::UpdateMesh));
    assert!(!q.upsert((0, 0, 0), ChunkUpdate::UpdateLightMap));
    assert_eq!(q.get((0, 0, 0)), Some(ChunkUpdate::UpdateMesh));

    assert!(q.upsert((1, 0, 0), ChunkUpdate::UpdateLightMap));
    assert!(q.upsert((1, 0, 0), ChunkUpdate::UpdateMesh));
    assert_eq!(q.get((1, 0, 0)), Some(ChunkUpdate::UpdateMesh));
    assert!(!q.upsert((1, 0, 0), ChunkUpdate::UpdateMesh));
    assert_eq!(q.len(), 2);
}

#[test]
fn generation_queues_the_neighbourhood() {
    let mut q = MapUpdates::new();
    q.upsert((0, 0, 0), ChunkUpdate::GenerateChunk);
    q.upsert((16, 0, 0), ChunkUpdate::UpdateMesh);
    q.upsert((64, 0, 0), ChunkUpdate::GenerateChunk);
    q.finish_generation((0, 0, 0), 16);
    assert_eq!(q.get((0, 0, 0)), Some(ChunkUpdate::UpdateLightMap));
    assert_eq!(q.get((-16, -16, -16)), Some(ChunkUpdate::UpdateLightMap));
    assert_eq!(q.get((16, 0, 0)), Some(ChunkUpdate::UpdateMesh));
    assert_eq!(q.get((64, 0, 0)), Some(ChunkUpdate::GenerateChunk));
    assert_eq!(q.len(), 28);
    assert_eq!(q.pending(ChunkUpdate::UpdateLightMap).len(), 26);

    q.finish_light_map((0, 0, 0), 16);
    assert_eq!(q.get((0, 0, 0)), Some(ChunkUpdate::UpdateLight));
    assert_eq!(q.get((16, 16, 16)), Some(ChunkUpdate::UpdateLight));
    q.finish_light((0, 0, 0));
    assert_eq!(q.get((0, 0, 0)), Some(ChunkUpdate::UpdateMesh));
    q.finish_mesh((0, 0, 0));
    assert!(!q.contains_key((0, 0, 0)));
    assert_eq!(q.remove((64, 0, 0)), Some(ChunkUpdate::GenerateChunk));
    assert_eq!(q.remove((64, 0, 0)), None);
}

#[test]
fn lod_steps_every_128_units() {
    assert_eq!(lod_for((0, 0, 0), (0, 0, 0)), 0);
    assert_eq!(lod_for((0, 0, 0), (127, -127, 0)), 0);
    assert_eq!(lod_for((0, 0, 0), (0, -300, 129)), 2);
    assert_eq!(lod_for((100, 0, 0), (-200, 0, 0)), 2);
}

#[test]
fn column_top_and_filters() {
    let mut chunk: Chunk<i32> = Chunk::new(2, (0, 0, 0));
    assert_eq!(ColumnQuery::YTop.execute(1, 1, &chunk), None);
    chunk.insert((1, 1, 1), 5);
    assert_eq!(ColumnQuery::YTop.execute(1, 1, &chunk), Some((1, 2, 1)));
    chunk.insert((1, 3, 1), 5);
    assert_eq!(ColumnQuery::YTop.execute(1, 1, &chunk), None);

    assert_eq!(Filter::NearestNeighbour.aux_width(), 0);
    assert_eq!(Filter::Bilinear(4).aux_width(), 1);
    assert_eq!(Filter::Bilinear(4).as_i32(), 4);
    assert_eq!(Filter::NearestNeighbour.as_usize(), 1);
}

#[test]
fn world_from_chunks_keeps_the_last_of_a_position() {
    let mut a: Chunk<i32> = Chunk::new(1, (0, 0, 0));
    a.insert((0, 0, 0), 1);
    let mut b: Chunk<i32> = Chunk::new(1, (0, 0, 0));
    b.insert((0, 0, 0), 2);
    let c: Chunk<i32> = Chunk::new(1, (0, 2, 0));
    let map = ChunkMap::with_chunks(vec![a, b, c]);
    assert_eq!(map.iter().len(), 2);
    assert_eq!(map.get((0, 0, 0)).unwrap().get((0, 0, 0)), Some(2));
    assert!(map.get((0, 2, 0)).is_some());
}

#[test]
fn default_filter_is_bilinear_two() {
    assert_eq!(Filter::default(), Filter::Bilinear(2));
    assert_eq!(Filter::default().as_i32(), 2);
    assert_eq!(Filter::Bilinear(3).as_i32(), 3);
}

#[test]
fn shading_waits_for_lit_neighbours_and_sums_boxes() {
    let mut a: Chunk<i32> = Chunk::new(1, (0, 0, 0));
    a.insert((0, 0, 0), 1);
    light_map_update(&mut a, (0, 100, 0));
    let b: Chunk<i32> = Chunk::new(1, (2, 0, 0));
    let mut map = ChunkMap::new();
    map.insert(a);
    map.insert(b);
    assert!(!neighbours_lit(&map, (0, 0, 0), 2));
    assert!(smooth_light(&map, (0, 0, 0)).is_none());

    let mut b = map.remove((2, 0, 0)).unwrap();
    light_map_update(&mut b, (0, 100, 0));
    map.insert(b);
    assert!(neighbours_lit(&map, (0, 0, 0), 2));
    let sums = smooth_light(&map, (0, 0, 0)).unwrap();
    assert_eq!(sums.len(), 64);
    // padded cell (0, 0, 0) sits at index (1 * 4 + 1) * 4 + 1; its box reaches
    // the 8 cells of chunk a, one of them dark, and no other existing chunk
    assert_eq!(sums[21], (7, 8));
    // padded cell (1, 0, 0) also reaches the near column of chunk b
    assert_eq!(sums[(2 * 4 + 1) * 4 + 1], (11, 12));
    let faces = face_samples(&sums, 2, (0, 0, 0));
    assert_eq!(faces.len(), 6);
    assert_eq!(faces[4], sums[(2 * 4 + 1) * 4 + 1]);
}

#[test]
fn quad_indices_follow_vertex_layout() {
    let q = |geometry| Quad { x: 0, y: 0, z: 0, size: 1, geometry, block: stone() };
    let idx = quad_indices(&vec![q(Geometry::Face(Face::Top)), q(Geometry::Cross), q(Geometry::Face(Face::Left))]);
    assert_eq!(idx.len(), 6 + 24 + 6);
    assert_eq!(&idx[0..6], &[0, 1, 2, 2, 3, 0]);
    assert_eq!(&idx[6..12], &[4, 5, 6, 6, 7, 4]);
    assert_eq!(&idx[24..30], &[16, 17, 18, 18, 19, 16]);
    assert_eq!(&idx[30..36], &[20, 21, 22, 22, 23, 20]);
}
