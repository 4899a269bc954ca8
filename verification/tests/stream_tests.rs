use voxelith::block::ChunkPos;
use voxelith::stream::{dist2, StreamState};

fn p(x: i32, z: i32) -> ChunkPos {
    ChunkPos::new(x, z)
}

#[test]
fn squared_distance() {
    assert_eq!(dist2(p(3, 4), p(0, 0)), 25);
    assert_eq!(dist2(p(-2, 5), p(1, 1)), 25);
    assert_eq!(dist2(p(7, 7), p(7, 7)), 0);
}

#[test]
fn first_update_loads_the_disk_closest_first() {
    let mut s = StreamState::new(1);
    let step = s.update(p(0, 0));
    assert_eq!(step.load, vec![p(0, 0), p(0, -1), p(-1, 0), p(1, 0), p(0, 1)]);
    assert!(step.unload.is_empty());
    for q in &step.load {
        assert!(s.is_handled(*q));
    }
    assert!(!s.is_handled(p(1, 1)));
}

#[test]
fn staying_in_the_same_chunk_does_nothing() {
    let mut s = StreamState::new(2);
    let first = s.update(p(3, 3));
    assert_eq!(first.load.len(), 13);
    let again = s.update(p(3, 3));
    assert!(again.load.is_empty());
    assert!(again.unload.is_empty());
}

#[test]
fn radius_two_ordering() {
    let mut s = StreamState::new(2);
    let step = s.update(p(0, 0));
    let d: Vec<i32> = step.load.iter().map(|q| dist2(*q, p(0, 0))).collect();
    assert_eq!(d, vec![0, 1, 1, 1, 1, 2, 2, 2, 2, 4, 4, 4, 4]);
    assert_eq!(step.load[5], p(-1, -1));
    assert_eq!(step.load[9], p(0, -2));
}

#[test]
fn moving_one_chunk_loads_only_the_new_edge() {
    let mut s = StreamState::new(1);
    s.update(p(0, 0));
    let step = s.update(p(1, 0));
    assert_eq!(step.load, vec![p(1, -1), p(2, 0), p(1, 1)]);
    assert!(step.unload.is_empty());
}

#[test]
fn moving_far_unloads_everything_behind() {
    let mut s = StreamState::new(1);
    s.update(p(0, 0));
    let step = s.update(p(10, 0));
    assert_eq!(step.load.len(), 5);
    let mut gone = step.unload.clone();
    gone.sort_by_key(|q| (q.x, q.z));
    assert_eq!(gone, vec![p(-1, 0), p(0, -1), p(0, 0), p(0, 1), p(1, 0)]);
    assert!(!s.is_handled(p(0, 0)));
    assert!(s.is_handled(p(10, 0)));
}

#[test]
fn hysteresis_margin_keeps_nearby_chunks() {
    let mut s = StreamState::new(1);
    s.update(p(0, 0));
    let step = s.update(p(4, 0));
    let mut gone = step.unload.clone();
    gone.sort_by_key(|q| (q.x, q.z));
    assert_eq!(gone, vec![p(-1, 0), p(0, -1), p(0, 0), p(0, 1)]);
    assert!(s.is_handled(p(1, 0)));
}

#[test]
fn negative_view_distance_loads_nothing() {
    let mut s = StreamState::new(-1);
    let step = s.update(p(0, 0));
    assert!(step.load.is_empty());
    assert!(step.unload.is_empty());
}
