use pomme::atlas::{first_frame, pack, plan_atlas, PackSource};

fn src(w: u32, h: u32) -> PackSource {
    PackSource { w, h, has_data: true }
}

#[test]
fn pack_fills_shelves_after_the_placeholder() {
    let sources = [src(16, 16), src(16, 16), src(16, 16), src(8, 8)];
    let (places, fit) = pack(&sources, 32);
    assert!(!fit);
    assert_eq!(places, vec![Some((16, 0)), Some((0, 16)), Some((16, 16)), None]);
    let (places, fit) = pack(&sources, 64);
    assert!(fit);
    assert_eq!(places, vec![Some((16, 0)), Some((32, 0)), Some((48, 0)), Some((0, 16))]);
}

#[test]
fn pack_skips_textures_without_pixels() {
    let sources = [PackSource { w: 0, h: 0, has_data: false }, src(16, 16)];
    let (places, fit) = pack(&sources, 32);
    assert!(fit);
    assert_eq!(places, vec![None, Some((16, 0))]);
}

#[test]
fn pack_reports_overflow() {
    let sources = [src(16, 16), src(16, 16)];
    let (places, fit) = pack(&sources, 16);
    assert!(!fit);
    assert_eq!(places, vec![None, None]);
}

#[test]
fn plan_doubles_until_fit() {
    let sources = vec![src(16, 16); 6];
    let (size, places) = plan_atlas(&sources, 16);
    assert_eq!(size, 64);
    assert!(places.iter().all(|p| p.is_some()));
}

#[test]
fn plan_stops_at_the_cap() {
    let sources = [src(9000, 9000)];
    let (size, places) = plan_atlas(&sources, 4096);
    assert_eq!(size, 8192);
    assert_eq!(places, vec![None]);
}

#[test]
fn first_frame_of_a_strip() {
    let data: Vec<u8> = (0..32).collect();
    let (frame, h) = first_frame(&data, 2, 4);
    assert_eq!(h, 2);
    assert_eq!(frame, (0..16).collect::<Vec<u8>>());
    let (frame, h) = first_frame(&data[..8], 2, 1);
    assert_eq!(h, 1);
    assert_eq!(frame.len(), 8);
}

use pomme::atlas::{atlas_pixels, layout_atlas, sort_tallest_first, AtlasSource};

fn solid(w: u32, h: u32, v: u8) -> AtlasSource {
    AtlasSource { w, h, data: vec![v; (w * h * 4) as usize] }
}

fn pixel(px: &[u8], size: u32, x: u32, y: u32) -> [u8; 4] {
    let i = ((y * size + x) * 4) as usize;
    [px[i], px[i + 1], px[i + 2], px[i + 3]]
}

#[test]
fn placeholder_alternates_squares() {
    let px = atlas_pixels(32, &[], &[]);
    assert_eq!(px.len(), 32 * 32 * 4);
    assert_eq!(pixel(&px, 32, 0, 0), [255, 0, 255, 255]);
    assert_eq!(pixel(&px, 32, 8, 0), [0, 0, 0, 255]);
    assert_eq!(pixel(&px, 32, 8, 8), [255, 0, 255, 255]);
    assert_eq!(pixel(&px, 32, 15, 15), [255, 0, 255, 255]);
    assert_eq!(pixel(&px, 32, 16, 0), [0, 0, 0, 0]);
}

#[test]
fn textures_are_drawn_where_placed() {
    let sources = vec![solid(16, 16, 7), AtlasSource { w: 0, h: 0, data: Vec::new() }, solid(8, 8, 9)];
    let (size, places, px) = layout_atlas(&sources, 32);
    assert_eq!(size, 32);
    assert_eq!(places, vec![Some((16, 0)), None, Some((0, 16))]);
    assert_eq!(pixel(&px, 32, 20, 3), [7, 7, 7, 7]);
    assert_eq!(pixel(&px, 32, 3, 20), [9, 9, 9, 9]);
    assert_eq!(pixel(&px, 32, 10, 20), [0, 0, 0, 0]);
    assert_eq!(pixel(&px, 32, 0, 0), [255, 0, 255, 255]);
}

#[test]
fn layout_grows_the_atlas() {
    let sources: Vec<AtlasSource> = (0..6).map(|_| solid(16, 16, 1)).collect();
    let (size, places, px) = layout_atlas(&sources, 16);
    assert_eq!(size, 64);
    assert!(places.iter().all(|p| p.is_some()));
    assert_eq!(px.len(), 64 * 64 * 4);
}

#[test]
fn tallest_first_keeps_ties_in_order() {
    let sources = vec![solid(1, 4, 1), solid(1, 32, 2), solid(1, 8, 3), solid(1, 32, 4), solid(1, 16, 5)];
    let sorted = sort_tallest_first(sources);
    let order: Vec<u8> = sorted.iter().map(|s| s.data[0]).collect();
    assert_eq!(order, vec![2, 4, 1, 3, 5]);
}

#[test]
fn a_texture_wider_than_the_atlas_runs_into_the_rows_below() {
    let mut data = Vec::new();
    for ty in 0..2u8 {
        for tx in 0..48u8 {
            data.extend_from_slice(&[tx + 100 * ty, 1, 2, 3]);
        }
    }
    let sources = vec![AtlasSource { w: 48, h: 2, data }];
    let (size, places, px) = layout_atlas(&sources, 32);
    assert_eq!(size, 32);
    assert_eq!(places, vec![Some((0, 16))]);
    assert_eq!(pixel(&px, 32, 20, 16), [20, 1, 2, 3]);
    assert_eq!(pixel(&px, 32, 5, 17), [105, 1, 2, 3]);
    assert_eq!(pixel(&px, 32, 20, 17), [120, 1, 2, 3]);
    assert_eq!(pixel(&px, 32, 5, 18), [137, 1, 2, 3]);
    assert_eq!(pixel(&px, 32, 20, 18), [0, 0, 0, 0]);
}

#[test]
fn pack_handles_the_widest_edges() {
    let sources = vec![PackSource { w: u32::MAX, h: 1, has_data: true }];
    let (places, fit) = pack(&sources, u32::MAX);
    assert_eq!(places, vec![Some((0, 16))]);
    assert!(fit);
}
