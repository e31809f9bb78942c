use bevy_voxel::volumetric_tree::{Node, VolumetricTree};

#[test]
fn volumetric_tree_insert() {
    let mut vt = VolumetricTree::<i32>::new(8);
    vt.insert((-4, -4, -4), -4);
    vt.insert((-3, -3, -3), -3);
    vt.insert((-2, -2, -2), -2);
    vt.insert((-1, -1, -1), -1);
    vt.insert((0, 0, 0), 0);
    vt.insert((1, 1, 1), 1);
    vt.insert((2, 2, 2), 2);
    vt.insert((3, 3, 3), 3);

    assert_eq!(vt.position(&-1), Some((-1, -1, -1)));
    assert_eq!(vt.position(&-2), Some((-2, -2, -2)));
    assert_eq!(vt.position(&-3), Some((-3, -3, -3)));
    assert_eq!(vt.position(&-4), Some((-4, -4, -4)));
    assert_eq!(vt.position(&0), Some((0, 0, 0)));
    assert_eq!(vt.position(&1), Some((1, 1, 1)));
    assert_eq!(vt.position(&2), Some((2, 2, 2)));
    assert_eq!(vt.position(&3), Some((3, 3, 3)));

    assert_eq!(vt.get((-1, -1, -1)), Some(&-1));
    assert_eq!(vt.get((-2, -2, -2)), Some(&-2));
    assert_eq!(vt.get((-3, -3, -3)), Some(&-3));
    assert_eq!(vt.get((-4, -4, -4)), Some(&-4));
    assert_eq!(vt.get((0, 0, 0)), Some(&0));
    assert_eq!(vt.get((1, 1, 1)), Some(&1));
    assert_eq!(vt.get((2, 2, 2)), Some(&2));
    assert_eq!(vt.get((3, 3, 3)), Some(&3));
}

#[test]
fn volumetric_tree_remove() {
    let mut vt = VolumetricTree::<i32>::new(8);
    vt.insert((-4, -4, -4), -4);
    vt.insert((-3, -3, -3), -3);
    vt.insert((-2, -2, -2), -2);
    vt.insert((-1, -1, -1), -1);
    vt.insert((0, 0, 0), 0);
    vt.insert((1, 1, 1), 1);
    vt.insert((2, 2, 2), 2);
    vt.insert((3, 3, 3), 3);

    vt.remove((0, 0, 0));

    assert_eq!(vt.position(&-1), Some((-1, -1, -1)));
    assert_eq!(vt.position(&-2), Some((-2, -2, -2)));
    assert_eq!(vt.position(&-3), Some((-3, -3, -3)));
    assert_eq!(vt.position(&-4), Some((-4, -4, -4)));
    assert_eq!(vt.position(&0), None);
    assert_eq!(vt.position(&1), Some((1, 1, 1)));
    assert_eq!(vt.position(&2), Some((2, 2, 2)));
    assert_eq!(vt.position(&3), Some((3, 3, 3)));

    assert_eq!(vt.get((-1, -1, -1)), Some(&-1));
    assert_eq!(vt.get((-2, -2, -2)), Some(&-2));
    assert_eq!(vt.get((-3, -3, -3)), Some(&-3));
    assert_eq!(vt.get((-4, -4, -4)), Some(&-4));
    assert_eq!(vt.get((0, 0, 0)), None);
    assert_eq!(vt.get((1, 1, 1)), Some(&1));
    assert_eq!(vt.get((2, 2, 2)), Some(&2));
    assert_eq!(vt.get((3, 3, 3)), Some(&3));
}

#[test]
fn auto_merge() {
    let mut vt = VolumetricTree::<i32>::new(8);
    vt.insert((2, 2, 2), 0);
    vt.insert((2, 2, 3), 0);
    vt.insert((2, 3, 2), 0);
    vt.insert((2, 3, 3), 0);
    vt.insert((3, 2, 2), 0);
    vt.insert((3, 2, 3), 0);
    vt.insert((3, 3, 2), 0);
    vt.insert((3, 3, 3), 0);

    assert_eq!(vt.position(&0), Some((2, 2, 2)));

    assert_eq!(vt.get((2, 2, 2)), Some(&0));
    assert_eq!(vt.get((2, 2, 3)), Some(&0));
    assert_eq!(vt.get((2, 3, 2)), Some(&0));
    assert_eq!(vt.get((2, 3, 3)), Some(&0));
    assert_eq!(vt.get((3, 2, 2)), Some(&0));
    assert_eq!(vt.get((3, 2, 3)), Some(&0));
    assert_eq!(vt.get((3, 3, 2)), Some(&0));
    assert_eq!(vt.get((3, 3, 3)), Some(&0));

    let a = vt.get((2, 2, 2)).unwrap();
    let b = vt.get((2, 2, 3)).unwrap();
    let c = vt.get((2, 3, 2)).unwrap();
    let d = vt.get((2, 3, 3)).unwrap();
    let e = vt.get((3, 2, 2)).unwrap();
    let f = vt.get((3, 2, 3)).unwrap();
    let g = vt.get((3, 3, 2)).unwrap();
    let h = vt.get((3, 3, 3)).unwrap();

    assert!(std::ptr::eq(a, b));
    assert!(std::ptr::eq(a, c));
    assert!(std::ptr::eq(a, d));
    assert!(std::ptr::eq(a, e));
    assert!(std::ptr::eq(a, f));
    assert!(std::ptr::eq(a, g));
    assert!(std::ptr::eq(a, h));
}

#[test]
fn volumetric_tree_elements() {
    let mut vt = VolumetricTree::<i32>::new(4);
    vt.insert((-2, -2, -2), -2);
    vt.insert((-1, -1, -1), -1);
    vt.insert((0, 0, 0), 2);
    vt.insert((0, 0, 1), 2);
    vt.insert((0, 1, 0), 2);
    vt.insert((0, 1, 1), 2);
    vt.insert((1, 0, 0), 2);
    vt.insert((1, 0, 1), 2);
    vt.insert((1, 1, 0), 2);
    vt.insert((1, 1, 1), 2);

    assert_eq!(
        vt.elements()
            .iter()
            .map(|elem| ((elem.x, elem.y, elem.z), elem.value, elem.width))
            .collect::<Vec<_>>(),
        &[((-2, -2, -2), -2, 1), ((-1, -1, -1), -1, 1), ((0, 0, 0), 2, 2),],
    );
}

#[test]
fn diagnonal() {
    let mut vt = VolumetricTree::<i32>::new(4);
    vt.insert((-2, -2, -2), -2);
    vt.insert((-1, -1, -1), -1);
    vt.insert((0, 0, 0), 0);
    vt.insert((1, 1, 1), 1);

    assert_eq!(
        vt.elements()
            .iter()
            .map(|elem| ((elem.x, elem.y, elem.z), elem.value, elem.width))
            .collect::<Vec<_>>(),
        &[
            ((-2, -2, -2), -2, 1),
            ((-1, -1, -1), -1, 1),
            ((0, 0, 0), 0, 1),
            ((1, 1, 1), 1, 1),
        ],
    );
}

#[test]
fn volumetric_len_tracks_cells() {
    let mut vt = VolumetricTree::<i32>::new(4);
    assert!(vt.is_empty());
    assert_eq!(vt.insert((0, 0, 0), 5), None);
    assert_eq!(vt.insert((0, 0, 0), 6), Some(5));
    assert_eq!(vt.len(), 1);
    assert_eq!(vt.insert((2, 0, 0), 1), None);
    assert_eq!(vt.len(), 1);
    assert_eq!(vt.remove((0, 0, 0)), Some(6));
    assert_eq!(vt.len(), 0);
    assert!(!vt.contains_key((0, 0, 0)));
    assert!(!vt.contains(&6));
    assert_eq!(vt.capacity(), 64);
    vt.insert((1, 1, 1), 3);
    vt.clear();
    assert_eq!(vt.get((1, 1, 1)), None);
    assert_eq!(vt.width(), 4);
}

#[test]
fn node_kinds() {
    let mut n: Node<i32> = Node::Leaf { width: 4, value: None };
    assert!(n.is_leaf() && !n.is_branch());
    assert_eq!(n.insert((0, 0, 0), 3), None);
    assert!(n.is_branch());
    assert_eq!(n.width(), 4);
    assert_eq!(n.get((0, 0, 0)), Some(&3));
    assert_eq!(n.remove((0, 0, 0)), Some(3));
    assert!(n.is_leaf());
    assert_eq!(n.get((0, 0, 0)), None);
}
