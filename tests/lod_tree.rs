use bevy_voxel::lod_tree::LodTree;
use bevy_voxel::morton::{array_index, depth_index};

#[test]
fn index() {
    let depth = 2;
    let idx0 = 3;
    let (x, y, z) = array_index(idx0, depth);
    let idx1 = depth_index(x, y, z, depth);
    assert_eq!(idx0, idx1);
}

#[test]
fn lod_tree_insert() {
    let mut vt = LodTree::<i32>::new(4);
    vt.insert((0, 0, 0), 0);
    vt.insert((1, 1, 1), 1);
    vt.insert((2, 2, 2), 2);
    vt.insert((3, 3, 3), 3);

    assert_eq!(vt.position(&0), Some((0, 0, 0)));
    assert_eq!(vt.position(&1), Some((1, 1, 1)));
    assert_eq!(vt.position(&2), Some((2, 2, 2)));
    assert_eq!(vt.position(&3), Some((3, 3, 3)));

    assert_eq!(vt.get((0, 0, 0)).unwrap(), 0);
    assert_eq!(vt.get((1, 1, 1)).unwrap(), 1);
    assert_eq!(vt.get((2, 2, 2)).unwrap(), 2);
    assert_eq!(vt.get((3, 3, 3)).unwrap(), 3);
}

#[test]
fn lod_tree_remove() {
    let mut vt = LodTree::<i32>::new(8);
    vt.insert((0, 0, 0), 0);
    vt.insert((1, 1, 1), 1);
    vt.insert((2, 2, 2), 2);
    vt.insert((3, 3, 3), 3);

    vt.remove((0, 0, 0));

    assert_eq!(vt.position(&0), None);
    assert_eq!(vt.position(&1), Some((1, 1, 1)));
    assert_eq!(vt.position(&2), Some((2, 2, 2)));
    assert_eq!(vt.position(&3), Some((3, 3, 3)));

    assert_eq!(vt.get((0, 0, 0)), None);
    assert_eq!(vt.get((1, 1, 1)).unwrap(), 1);
    assert_eq!(vt.get((2, 2, 2)).unwrap(), 2);
    assert_eq!(vt.get((3, 3, 3)).unwrap(), 3);
}

#[test]
fn lod_tree_elements() {
    let mut vt = LodTree::<i32>::new(4);
    vt.insert((0, 0, 0), 0);
    vt.insert((0, 0, 1), 1);
    vt.insert((2, 0, 0), 2);

    assert_eq!(vt.elements().len(), 3);
    assert!(vt
        .elements()
        .iter()
        .map(|elem| ((elem.x, elem.y, elem.z), elem.value, elem.width))
        .all(|elem| {
            [((0, 0, 0), 0, 1), ((0, 0, 1), 1, 1), ((2, 0, 0), 2, 1)].contains(&elem)
        }));
}

#[test]
fn merge() {
    let mut vt = LodTree::<i32>::new(4);
    vt.insert((2, 2, 2), 0);
    vt.insert((2, 2, 3), 0);
    vt.insert((2, 3, 2), 0);
    vt.insert((2, 3, 3), 0);
    vt.insert((3, 2, 2), 0);
    vt.insert((3, 2, 3), 0);
    vt.insert((3, 3, 2), 0);
    vt.insert((3, 3, 3), 0);

    vt.merge();

    assert_eq!(vt.elements().len(), 1);

    assert_eq!(vt.position(&0), Some((2, 2, 2)));

    assert_eq!(vt.get((2, 2, 2)).unwrap(), 0);
    assert_eq!(vt.get((2, 2, 3)).unwrap(), 0);
    assert_eq!(vt.get((2, 3, 2)).unwrap(), 0);
    assert_eq!(vt.get((2, 3, 3)).unwrap(), 0);
    assert_eq!(vt.get((3, 2, 2)).unwrap(), 0);
    assert_eq!(vt.get((3, 2, 3)).unwrap(), 0);
    assert_eq!(vt.get((3, 3, 2)).unwrap(), 0);
    assert_eq!(vt.get((3, 3, 3)).unwrap(), 0);

    let a = vt.get_ref((2, 2, 2)).unwrap();
    let b = vt.get_ref((2, 2, 3)).unwrap();
    let c = vt.get_ref((2, 3, 2)).unwrap();
    let d = vt.get_ref((2, 3, 3)).unwrap();
    let e = vt.get_ref((3, 2, 2)).unwrap();
    let f = vt.get_ref((3, 2, 3)).unwrap();
    let g = vt.get_ref((3, 3, 2)).unwrap();
    let h = vt.get_ref((3, 3, 3)).unwrap();

    assert!(std::ptr::eq(a, b));
    assert!(std::ptr::eq(a, c));
    assert!(std::ptr::eq(a, d));
    assert!(std::ptr::eq(a, e));
    assert!(std::ptr::eq(a, f));
    assert!(std::ptr::eq(a, g));
    assert!(std::ptr::eq(a, h));
}

#[test]
fn round_trip_every_cell() {
    let mut vt = LodTree::<i32>::new(4);
    for x in 0..4 {
        for y in 0..4 {
            for z in 0..4 {
                let v = x * 100 + y * 10 + z;
                assert_eq!(vt.insert((x, y, z), v), None);
                assert_eq!(vt.get((x, y, z)), Some(v));
            }
        }
    }
    assert_eq!(vt.len(), 64);
    assert_eq!(vt.get((1, 2, 3)), Some(123));
    assert_eq!(vt.insert((1, 2, 3), -5), Some(123));
    assert_eq!(vt.get((1, 2, 3)), Some(-5));
    assert_eq!(vt.len(), 64);
}

#[test]
fn out_of_bounds_is_ignored() {
    let mut vt = LodTree::<i32>::new(4);
    assert_eq!(vt.insert((4, 0, 0), 1), None);
    assert_eq!(vt.insert((-1, 0, 0), 1), None);
    assert_eq!(vt.get((4, 0, 0)), None);
    assert!(vt.is_empty());
    assert_eq!(vt.capacity(), 64);
    assert_eq!(vt.width(), 4);
}

#[test]
fn remove_clears_cell() {
    let mut vt = LodTree::<i32>::new(8);
    vt.insert((5, 6, 7), 9);
    assert!(vt.contains_key((5, 6, 7)));
    assert_eq!(vt.remove((5, 6, 7)), Some(9));
    assert_eq!(vt.get((5, 6, 7)), None);
    assert!(!vt.contains_key((5, 6, 7)));
    assert_eq!(vt.len(), 0);
    assert_eq!(vt.remove((5, 6, 7)), None);
}

#[test]
fn seven_of_eight_do_not_merge() {
    let mut vt = LodTree::<i32>::new(4);
    let cells = [
        (0, 0, 0),
        (0, 0, 1),
        (0, 1, 0),
        (0, 1, 1),
        (1, 0, 0),
        (1, 0, 1),
        (1, 1, 0),
        (1, 1, 1),
    ];
    for (i, c) in cells.iter().enumerate() {
        vt.insert(*c, if i == 7 { 1 } else { 0 });
    }
    vt.merge();
    let occupied: Vec<_> = vt.elements();
    assert_eq!(occupied.len(), 8);
    assert!(occupied.iter().all(|e| e.width == 1));
    let a = vt.get_ref((0, 0, 0)).unwrap();
    let b = vt.get_ref((0, 0, 1)).unwrap();
    assert!(!std::ptr::eq(a, b));

    vt.insert((1, 1, 1), 0);
    vt.merge();
    let merged = vt.elements();
    assert_eq!(merged.len(), 1);
    assert_eq!(merged[0].width, 2);
    assert_eq!((merged[0].x, merged[0].y, merged[0].z), (0, 0, 0));
}

#[test]
fn writing_into_merged_region_splits_it() {
    let mut vt = LodTree::<i32>::new(4);
    for x in 0..2 {
        for y in 0..2 {
            for z in 0..2 {
                vt.insert((x, y, z), 7);
            }
        }
    }
    vt.merge();
    assert_eq!(vt.elements().len(), 1);
    assert_eq!(vt.insert((1, 1, 1), 8), Some(7));
    assert_eq!(vt.get((0, 0, 0)), Some(7));
    assert_eq!(vt.get((1, 1, 1)), Some(8));
    assert_eq!(vt.elements().len(), 8);
    assert_eq!(vt.len(), 8);
}

#[test]
fn lod_averaging_of_a_block() {
    let mut vt = LodTree::<i32>::new(4);
    for x in 0..2 {
        for y in 0..2 {
            vt.insert((x, y, 0), 0);
            vt.insert((x, y, 1), 2);
        }
    }
    vt.set_lod(1);
    assert_eq!(vt.lod(), 1);
    assert_eq!(vt.get((1, 1, 1)), Some(1));
    assert_eq!(vt.get((0, 0, 0)), Some(1));
    assert_eq!(vt.get((2, 2, 2)), None);
    let windows = vt.elements();
    assert_eq!(windows.len(), 1);
    assert_eq!(windows[0].width, 2);
    assert_eq!(windows[0].value, 1);
}

#[test]
fn lod_averaging_rounds_toward_zero() {
    let mut vt = LodTree::<i32>::new(4);
    for x in 0..2 {
        for y in 0..2 {
            vt.insert((x, y, 0), 0);
            vt.insert((x, y, 1), 1);
        }
    }
    vt.set_lod(1);
    assert_eq!(vt.get((0, 1, 0)), Some(0));
    vt.insert((3, 3, 3), -3);
    vt.insert((2, 3, 3), -2);
    assert_eq!(vt.get((3, 3, 3)), Some(-2));
}

#[test]
fn clear_empties() {
    let mut vt = LodTree::<i32>::new(2);
    vt.insert((1, 1, 1), 3);
    vt.clear();
    assert_eq!(vt.get((1, 1, 1)), None);
    assert_eq!(vt.len(), 0);
    assert!(!vt.contains(&3));
}

#[test]
fn opt_elements_cover_the_grid() {
    let mut vt = LodTree::<i32>::new(2);
    for x in 0..2 {
        for y in 0..2 {
            for z in 0..2 {
                vt.insert((x, y, z), 4);
            }
        }
    }
    vt.merge();
    let all = vt.opt_elements();
    assert_eq!(all.len(), 1);
    assert_eq!(all[0].width, 2);
    assert_eq!(all[0].value, Some(4));
    let mut empty = LodTree::<i32>::new(2);
    empty.merge();
    assert_eq!(empty.opt_elements().len(), 1);
    assert_eq!(empty.opt_elements()[0].value, None);
}

#[test]
fn lod_average_counts_a_merged_region_once() {
    let mut vt = LodTree::<i32>::new(4);
    for x in 0..2 {
        for y in 0..2 {
            for z in 0..2 {
                vt.insert((x, y, z), 8);
            }
        }
    }
    vt.insert((2, 2, 2), 0);
    vt.merge();
    vt.set_lod(2);
    assert_eq!(vt.get((3, 3, 3)), Some(4));
    vt.set_lod(0);
    assert_eq!(vt.get((3, 3, 3)), None);
    assert_eq!(vt.get((1, 1, 1)), Some(8));
}

#[test]
fn set_region_changes_a_whole_merged_region() {
    let mut vt = LodTree::<i32>::new(4);
    for x in 0..2 {
        for y in 0..2 {
            for z in 0..2 {
                vt.insert((x, y, z), 3);
            }
        }
    }
    vt.insert((3, 3, 3), 1);
    vt.merge();
    assert!(vt.set_region((1, 0, 1), 9));
    for x in 0..2 {
        for y in 0..2 {
            for z in 0..2 {
                assert_eq!(vt.get((x, y, z)), Some(9));
            }
        }
    }
    assert_eq!(vt.get((3, 3, 3)), Some(1));
    assert_eq!(vt.elements().len(), 2);
    assert!(!vt.set_region((2, 2, 2), 5));
    assert!(!vt.set_region((9, 0, 0), 5));
    assert_eq!(vt.len(), 9);
}
