use pomme::textures::{atlas_asset_path, cubemap_extent, cubemap_staging, fallback_skin, fallback_texture, flip_horizontal, FACE_TO_LAYER};

#[test]
fn fallback_entity_texture_is_pink() {
    let (px, w, h) = fallback_texture(2);
    assert_eq!((w, h), (2, 2));
    assert_eq!(px, vec![219, 148, 148, 255, 219, 148, 148, 255, 219, 148, 148, 255, 219, 148, 148, 255]);
    let (px, w, h) = fallback_texture(0);
    assert!(px.is_empty());
    assert_eq!((w, h), (0, 0));
}

#[test]
fn fallback_skin_is_64_square() {
    let (px, w, h) = fallback_skin();
    assert_eq!((w, h), (64, 64));
    assert_eq!(px.len(), 64 * 64 * 4);
    assert_eq!(&px[..4], &[196, 161, 125, 255]);
    assert_eq!(&px[px.len() - 4..], &[196, 161, 125, 255]);
}

#[test]
fn flip_mirrors_each_row() {
    let data: Vec<u8> = (0..16).collect();
    let out = flip_horizontal(&data, 2, 2);
    assert_eq!(out, vec![4, 5, 6, 7, 0, 1, 2, 3, 12, 13, 14, 15, 8, 9, 10, 11]);
    assert_eq!(flip_horizontal(&out, 2, 2), data);
}

#[test]
fn flip_zeroes_bytes_past_the_image() {
    let data: Vec<u8> = vec![1, 2, 3, 4, 9, 9];
    assert_eq!(flip_horizontal(&data, 1, 1), vec![1, 2, 3, 4, 0, 0]);
}

#[test]
fn cubemap_layers_follow_face_order() {
    let faces: Vec<Vec<u8>> = (0..6u8).map(|i| vec![i, i, i, i]).collect();
    let staging = cubemap_staging(&faces, 1, 1);
    assert_eq!(staging.len(), 24);
    for (i, &layer) in FACE_TO_LAYER.iter().enumerate() {
        let l = layer as usize;
        assert_eq!(&staging[l * 4..l * 4 + 4], &[i as u8; 4]);
    }
}

#[test]
fn cubemap_faces_are_mirrored() {
    let mut faces: Vec<Vec<u8>> = vec![vec![0; 8]; 6];
    faces[0] = vec![1, 1, 1, 1, 2, 2, 2, 2];
    let staging = cubemap_staging(&faces, 2, 1);
    assert_eq!(&staging[4 * 8..5 * 8], &[2, 2, 2, 2, 1, 1, 1, 1]);
}

#[test]
fn atlas_paths() {
    assert_eq!(atlas_asset_path("stone"), "minecraft/textures/block/stone.png");
    assert_eq!(atlas_asset_path("item/apple"), "minecraft/textures/item/apple.png");
    assert_eq!(atlas_asset_path("entity/pig/pig"), "minecraft/textures/entity/pig/pig.png");
    assert_eq!(atlas_asset_path("items/apple"), "minecraft/textures/block/items/apple.png");
}

use pomme::textures::{panorama_asset_key, panorama_file_name};

#[test]
fn panorama_names() {
    assert_eq!(panorama_file_name(3), "panorama_3.png");
    assert_eq!(panorama_asset_key(0), "minecraft/textures/gui/title/background/panorama_0.png");
}

use pomme::textures::{layer_offsets, mip_extents};

#[test]
fn mip_chain_halves_to_one() {
    assert_eq!(mip_extents(8, 2, 5), vec![(8, 2), (4, 1), (2, 1), (1, 1), (1, 1)]);
    assert_eq!(mip_extents(1024, 1024, 0), vec![]);
    assert_eq!(mip_extents(5, 3, 3), vec![(5, 3), (2, 1), (1, 1)]);
}

#[test]
fn staging_layers_are_consecutive() {
    assert_eq!(layer_offsets(2, 3), vec![0, 24, 48, 72, 96, 120]);
}

#[test]
fn cubemap_needs_six_real_faces() {
    let good = [Some((4, 4)), Some((4, 4)), Some((4, 4)), Some((4, 4)), Some((4, 4)), Some((8, 8))];
    assert_eq!(cubemap_extent(&good), Some((8, 8)));
    let mut missing = good;
    missing[2] = None;
    assert_eq!(cubemap_extent(&missing), None);
    let mut placeholder = good;
    placeholder[0] = Some((1, 16));
    assert_eq!(cubemap_extent(&placeholder), None);
    let mut flat = good;
    flat[5] = Some((16, 1));
    assert_eq!(cubemap_extent(&flat), None);
}
