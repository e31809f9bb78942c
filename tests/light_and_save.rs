use bevy_voxel::lighting::{light_map_update, ray_light};
use bevy_voxel::lod_tree::{LodTree, Run};
use bevy_voxel::rle_tree::RleTree;
use bevy_voxel::world::Chunk;

#[test]
fn single_voxel_casts_a_shadow_below() {
    let mut chunk: Chunk<i32> = Chunk::new(3, (0, 0, 0));
    chunk.insert((4, 6, 4), 1);
    light_map_update(&mut chunk, (0, 100, 0));
    assert!(chunk.has_light());
    for x in 0..8 {
        for y in 0..8 {
            for z in 0..8 {
                let expected = if x == 4 && z == 4 && y <= 6 { 0 } else { 1 };
                assert_eq!(chunk.light((x, y, z)), Some(expected), "cell {:?}", (x, y, z));
            }
        }
    }
}

#[test]
fn empty_chunk_is_fully_lit() {
    let mut chunk: Chunk<i32> = Chunk::new(2, (0, 0, 0));
    light_map_update(&mut chunk, (-50, 100, 30));
    for x in 0..4 {
        for y in 0..4 {
            for z in 0..4 {
                assert_eq!(chunk.light((x, y, z)), Some(1));
            }
        }
    }
}

#[test]
fn ray_goes_dark_after_first_voxel() {
    let mut chunk: Chunk<i32> = Chunk::new(2, (0, 0, 0));
    chunk.insert((1, 1, 1), 3);
    let ray = vec![(0, 0, 0), (1, 1, 1), (2, 2, 2), (9, 9, 9)];
    assert_eq!(ray_light(&chunk, &ray), vec![1, 0, 0, 0]);
}

#[test]
fn runs_round_trip() {
    let mut tree = LodTree::<i32>::new(4);
    for x in 0..2 {
        for y in 0..2 {
            for z in 0..2 {
                tree.insert((x, y, z), 5);
            }
        }
    }
    tree.insert((3, 3, 3), 9);
    tree.merge();
    let saved = RleTree::with_tree(&tree);
    let runs = saved.runs();
    assert_eq!(runs[0], Run { value: Some(5), len: 8 });
    assert_eq!(runs[runs.len() - 1], Run { value: Some(9), len: 1 });
    assert_eq!(runs.iter().map(|r| r.len).sum::<usize>(), 64);
    let loaded = saved.to_tree().unwrap();
    for x in 0..4 {
        for y in 0..4 {
            for z in 0..4 {
                assert_eq!(loaded.get((x, y, z)), tree.get((x, y, z)));
            }
        }
    }
    assert_eq!(loaded.elements().len(), 2);
}

#[test]
fn runs_of_wrong_length_do_not_load() {
    let bad = RleTree::<i32>::from_runs(vec![Run { value: Some(1), len: 7 }]);
    assert!(bad.to_tree().is_none());
    let good = RleTree::<i32>::from_runs(vec![Run { value: Some(1), len: 3 }, Run { value: None, len: 5 }]);
    let tree = good.to_tree().unwrap();
    assert_eq!(tree.width(), 2);
    assert_eq!(tree.len(), 3);
}

#[test]
fn chunk_save_and_load() {
    let mut chunk: Chunk<i32> = Chunk::new(2, (8, 0, -4));
    chunk.insert((1, 2, 3), 4);
    chunk.insert((0, 0, 0), 2);
    let save = chunk.serializable();
    assert_eq!(save.position, (8, 0, -4));
    let back = Chunk::load(save).unwrap();
    assert_eq!(back.position(), (8, 0, -4));
    assert_eq!(back.get((1, 2, 3)), Some(4));
    assert_eq!(back.get((0, 0, 0)), Some(2));
    assert_eq!(back.get((3, 3, 3)), None);
    assert!(!back.has_light());
}
