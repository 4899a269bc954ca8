use voxelith::block::BlockState;
use voxelith::palette::SubChunk;

#[test]
fn empty_subchunk_is_all_air() {
    let s = SubChunk::empty();
    assert!(s.is_empty());
    assert_eq!(s.palette(), &[BlockState(0)][..]);
    for i in 0..4096 {
        assert_eq!(s.get(i), BlockState(0));
    }
}

#[test]
fn set_then_get_reads_back() {
    let mut s = SubChunk::empty();
    s.set(5, BlockState(1));
    assert_eq!(s.get(5), BlockState(1));
    assert_eq!(s.get(4), BlockState(0));
    assert_eq!(s.get(6), BlockState(0));
    assert!(!s.is_empty());
}

#[test]
fn palette_grows_once_per_new_state() {
    let mut s = SubChunk::empty();
    s.set(0, BlockState(1));
    s.set(1, BlockState(1));
    s.set(2, BlockState(7));
    s.set(3, BlockState(1));
    assert_eq!(s.palette(), &[BlockState(0), BlockState(1), BlockState(7)][..]);
    assert_eq!(s.get(0), BlockState(1));
    assert_eq!(s.get(2), BlockState(7));
    assert_eq!(s.get(3), BlockState(1));
}

#[test]
fn overwriting_keeps_the_palette() {
    let mut s = SubChunk::empty();
    s.set(100, BlockState(2));
    s.set(100, BlockState(9));
    assert_eq!(s.get(100), BlockState(9));
    assert_eq!(s.palette(), &[BlockState(0), BlockState(2), BlockState(9)][..]);
}

#[test]
fn back_to_air_is_empty_again() {
    let mut s = SubChunk::empty();
    s.set(4095, BlockState(3));
    assert!(!s.is_empty());
    s.set(4095, BlockState(0));
    assert!(s.is_empty());
    assert_eq!(s.palette().len(), 2);
}

#[test]
fn last_voxel_is_addressable() {
    let mut s = SubChunk::empty();
    s.set(4095, BlockState(4));
    assert_eq!(s.get(4095), BlockState(4));
    assert_eq!(s.get(0), BlockState(0));
}
