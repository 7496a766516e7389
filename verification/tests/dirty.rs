use pomme::dirty::mark_dirty;

#[test]
fn inner_block_marks_its_chunk() {
    let mut d = Vec::new();
    mark_dirty(5, 5, &mut d);
    assert_eq!(d, vec![(0, 0)]);
    mark_dirty(6, 7, &mut d);
    assert_eq!(d, vec![(0, 0)]);
}

#[test]
fn border_blocks_mark_neighbours() {
    let mut d = Vec::new();
    mark_dirty(0, 15, &mut d);
    assert_eq!(d, vec![(0, 0), (-1, 0), (0, 1)]);
    let mut d = Vec::new();
    mark_dirty(-1, -16, &mut d);
    assert_eq!(d, vec![(-1, -1), (0, -1), (-1, -2)]);
}

#[test]
fn existing_chunks_are_not_repeated() {
    let mut d = vec![(-1, 0)];
    mark_dirty(16, 31, &mut d);
    assert_eq!(d, vec![(-1, 0), (1, 1), (0, 1), (1, 2)]);
}
