use pomme::block_ao::vertex_ao_level;

#[test]
fn ao_levels_count_occluders() {
    assert_eq!(vertex_ao_level(false, false, false, false), 3);
    assert_eq!(vertex_ao_level(true, false, false, false), 2);
    assert_eq!(vertex_ao_level(true, false, true, false), 1);
    assert_eq!(vertex_ao_level(false, false, true, true), 2);
}

#[test]
fn both_sides_use_first_neighbour() {
    assert_eq!(vertex_ao_level(true, true, false, false), 1);
    assert_eq!(vertex_ao_level(true, true, true, false), 1);
    assert_eq!(vertex_ao_level(true, true, false, true), 0);
}
