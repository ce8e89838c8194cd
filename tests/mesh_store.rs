use penger3d::mesh::{faces_within, LoadError, MeshStore};

type Store = MeshStore<(f32, f32, f32), ((f32, f32), (f32, f32))>;

fn square() -> Store {
    MeshStore::new(
        vec![(0.0, 0.0, 0.0), (1.0, 0.0, 0.0), (1.0, 1.0, 0.0), (0.0, 1.0, 0.0)],
        vec![vec![0, 1, 2, 3]],
        ((0.0, 0.0), (1.0, 1.0)),
    )
    .unwrap()
}

#[test]
fn new_rejects_face_beyond_vertices() {
    let s: Option<Store> = MeshStore::new(vec![(0.0, 0.0, 0.0)], vec![vec![0, 1]], ((0.0, 0.0), (0.0, 0.0)));
    assert!(s.is_none());
}

#[test]
fn faces_within_checks_every_index() {
    assert!(faces_within(&vec![vec![0, 1], vec![2]], 3));
    assert!(!faces_within(&vec![vec![0, 1], vec![3]], 3));
    assert!(faces_within(&vec![], 0));
}

#[test]
fn edges_wrap_to_first_index() {
    let s = square();
    assert_eq!(s.edges(), vec![(0, 1), (1, 2), (2, 3), (3, 0)]);
}

#[test]
fn edges_of_two_faces_in_order() {
    let s: Store = MeshStore::new(
        vec![(0.0, 0.0, 0.0), (1.0, 0.0, 0.0), (0.0, 1.0, 0.0)],
        vec![vec![0, 1, 2], vec![2, 1]],
        ((0.0, 0.0), (1.0, 1.0)),
    )
    .unwrap();
    assert_eq!(s.edges(), vec![(0, 1), (1, 2), (2, 0), (2, 1), (1, 2)]);
}

#[test]
fn replace_swaps_all_parts() {
    let mut s = square();
    let ok = s.replace(vec![(5.0, 5.0, 5.0)], vec![vec![0]], ((5.0, 5.0), (5.0, 5.0)));
    assert!(ok);
    assert_eq!(s.vertices(), &vec![(5.0, 5.0, 5.0)]);
    assert_eq!(s.faces(), &vec![vec![0]]);
    assert_eq!(s.bounds(), &((5.0, 5.0), (5.0, 5.0)));
    assert_eq!(s.edges(), vec![(0, 0)]);
}

#[test]
fn replace_with_bad_faces_keeps_store() {
    let mut s = square();
    let ok = s.replace(vec![(5.0, 5.0, 5.0)], vec![vec![0, 1]], ((5.0, 5.0), (5.0, 5.0)));
    assert!(!ok);
    assert_eq!(s.vertices().len(), 4);
    assert_eq!(s.faces(), &vec![vec![0, 1, 2, 3]]);
    assert_eq!(s.bounds(), &((0.0, 0.0), (1.0, 1.0)));
}

#[test]
fn failed_load_keeps_store_and_reports() {
    let mut s = square();
    let outcome = Err(String::from("No such file or directory"));
    let r = s.load(outcome);
    assert_eq!(r, Err(LoadError::Failed(String::from("No such file or directory"))));
    assert_eq!(s.vertices().len(), 4);
    assert_eq!(s.faces(), &vec![vec![0, 1, 2, 3]]);
    assert_eq!(s.bounds(), &((0.0, 0.0), (1.0, 1.0)));
}

#[test]
fn load_with_bad_faces_keeps_store() {
    let mut s = square();
    let outcome: Result<_, String> = Ok((vec![(1.0, 1.0, 1.0)], vec![vec![1]], ((1.0, 1.0), (1.0, 1.0))));
    assert_eq!(s.load(outcome), Err(LoadError::IndexOutOfRange));
    assert_eq!(s.faces(), &vec![vec![0, 1, 2, 3]]);
}

#[test]
fn successful_load_replaces_store() {
    let mut s = square();
    let outcome: Result<_, String> = Ok((
        vec![(-1.0, -1.0, 0.0), (1.0, -1.0, 0.0), (0.0, 1.0, 0.0)],
        vec![vec![0, 1, 2]],
        ((-1.0, -1.0), (1.0, 1.0)),
    ));
    assert_eq!(s.load(outcome), Ok(()));
    assert_eq!(s.vertices().len(), 3);
    assert_eq!(s.faces(), &vec![vec![0, 1, 2]]);
    assert_eq!(s.bounds(), &((-1.0, -1.0), (1.0, 1.0)));
}
