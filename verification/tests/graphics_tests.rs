use luminol_fs::cells::{animation_height_of, cell_position, cell_regions, cells_layout, num_patterns, CellRegion, CellsLayout};
use luminol_fs::tiles::{aligned_size_of, LayerData};
use luminol_fs::collision::{calculate_passage, calculate_passages, instance_positions, passage_offset, CollisionType, EventPage, EventTile, Table3};
use luminol_fs::tiles::{atlas_layout, autotile_copies, autotile_frames_of, autotile_width_of, tile_position, tileset_height_of, tileset_regions, AtlasLayout, AutotileData, TileCopy, TileRegion};

#[test]
fn passage_of_a_single_tile() {
    assert_eq!(calculate_passage(&[(0x0f, 0, CollisionType::Tile)]), 15);
    assert_eq!(calculate_passage(&[(0x05, 0, CollisionType::Tile)]), 5);
    assert_eq!(calculate_passage(&[]), 0);
}

#[test]
fn blank_tiles_only_count_at_the_bottom() {
    // The blank tile above is skipped; the tile below decides.
    assert_eq!(
        calculate_passage(&[(0x0f, 0, CollisionType::BlankTile), (0x00, 0, CollisionType::Tile)]),
        0
    );
    // A blank tile alone at the bottom counts.
    assert_eq!(calculate_passage(&[(0x03, 0, CollisionType::BlankTile)]), 3);
    // A tile with priority lets the check go on to the next layer.
    assert_eq!(
        calculate_passage(&[(0x01, 1, CollisionType::Tile), (0x02, 0, CollisionType::Tile)]),
        3
    );
    // A tile with priority 0 stops the check.
    assert_eq!(
        calculate_passage(&[(0x01, 0, CollisionType::Tile), (0x02, 0, CollisionType::Tile)]),
        1
    );
    // An event does not make a later blank tile count.
    assert_eq!(
        calculate_passage(&[(0x00, 1, CollisionType::Event), (0x08, 0, CollisionType::BlankTile)]),
        8
    );
}

#[test]
fn passages_of_a_map() {
    let passages: Vec<i16> = (0..400).map(|i| if i == 50 { 0x0f } else { 0 }).collect();
    let priorities: Vec<i16> = vec![0; 400];
    // 2 x 2 map, 1 layer: tile 50 at (1, 0), blank tile elsewhere.
    let tiles = Table3 { xsize: 2, ysize: 2, zsize: 1, data: vec![0, 50, 0, -3] };
    let events = vec![
        EventTile { x: 0, y: 1, first_page: Some(EventPage { through: false, tile_id: None }) },
        EventTile { x: 1, y: 1, first_page: Some(EventPage { through: true, tile_id: None }) },
    ];
    let r = calculate_passages(&passages, &priorities, &tiles, &events, &vec![0]);
    assert_eq!(r, vec![0, 15, 15, 0]);
    assert_eq!(instance_positions(5, 2, 2), vec![(0, 0), (1, 0), (0, 1), (1, 1), (0, 0)]);
    assert_eq!(passage_offset(1, 3, 20), 61);
}

#[test]
fn atlas_layout_small_and_large() {
    assert_eq!(tileset_height_of(Some(1000)), 992);
    assert_eq!(tileset_height_of(None), 256);
    assert_eq!(autotile_frames_of(&vec![Some(96), Some(384), None]), vec![1, 4, 1]);
    assert_eq!(autotile_width_of(&vec![1, 4, 1]), 1024);
    assert_eq!(autotile_width_of(&vec![]), 256);
    assert_eq!(atlas_layout(992, 256), AtlasLayout { width: 256, height: 2336, rows_under: 1, rows_side: 0 });
    assert_eq!(atlas_layout(20000, 512), AtlasLayout { width: 768, height: 8192, rows_under: 2, rows_side: 1 });
    assert_eq!(
        tileset_regions(20000, 512),
        vec![
            TileRegion { src_y: 0, height: 6848, dst_x: 0, dst_y: 1344 },
            TileRegion { src_y: 6848, height: 6848, dst_x: 256, dst_y: 1344 },
            TileRegion { src_y: 13696, height: 6304, dst_x: 512, dst_y: 0 },
        ]
    );
    assert_eq!(tileset_regions(992, 256), vec![TileRegion { src_y: 0, height: 992, dst_x: 0, dst_y: 1344 }]);
}

#[test]
fn autotile_copies_and_tile_positions() {
    let copies = autotile_copies(2, 2);
    assert_eq!(copies.len(), 384);
    assert_eq!(copies[0], TileCopy { src_x: 32, src_y: 64, dst_x: 0, dst_y: 384 });
    assert_eq!(copies[192 + 4 * 47 + 3], TileCopy { src_x: 96 + 16, src_y: 16, dst_x: 256 + 7 * 32 + 16, dst_y: 384 + 5 * 32 + 16 });
    assert_eq!(tile_position(-5, 256), (0, 0));
    assert_eq!(tile_position(47, 256), (0, 0));
    assert_eq!(tile_position(48, 256), (0, 0));
    assert_eq!(tile_position(57, 256), (32, 32));
    assert_eq!(tile_position(384, 256), (0, 42 * 32));
    assert_eq!(tile_position(384 + 1712, 256), (256, 0));
    assert_eq!(tile_position(384 + 1712 + 9, 256), (288, 32));
    let mut a = AutotileData::new(vec![1, 2], 512);
    assert_eq!(a.max_frame_count, 2);
    a.ani_index = u32::MAX;
    a.inc_ani_index();
    assert_eq!(a.ani_index, 0);
}

#[test]
fn animation_cell_atlas() {
    assert_eq!(animation_height_of(Some(1000)), 960);
    assert_eq!(animation_height_of(None), 192);
    assert_eq!(cells_layout(960), CellsLayout { wrap_columns: 1, width: 960, height: 960 });
    assert_eq!(cells_layout(20000), CellsLayout { wrap_columns: 3, width: 2880, height: 8192 });
    assert_eq!(
        cell_regions(20000, 960),
        vec![
            CellRegion { src_y: 0, width: 960, height: 8064, dst_x: 0 },
            CellRegion { src_y: 8064, width: 960, height: 8064, dst_x: 960 },
            CellRegion { src_y: 16128, width: 960, height: 3872, dst_x: 1920 },
        ]
    );
    assert_eq!(cell_regions(8100, 500), vec![CellRegion { src_y: 0, width: 500, height: 8100, dst_x: 0 }]);
    assert_eq!(cell_regions(0, 960), vec![]);
    assert_eq!(cell_position(-1), (0, 0));
    assert_eq!(cell_position(7), (384, 192));
    assert_eq!(cell_position(211), (1152, 0));
    assert_eq!(num_patterns(960), 25);
}

#[test]
fn tilemap_layer_buffer() {
    assert_eq!(aligned_size_of(256), 256);
    assert_eq!(aligned_size_of(0), 16);
    assert_eq!(aligned_size_of(12), 24);
    let mut d = LayerData::new(3, 256);
    assert_eq!(d.data.len(), 768);
    assert_eq!(d.range_of_layer(2), 512..528);
    let bytes: Vec<u8> = (1..=16).collect();
    d.set_bytes_of_layer(1, &bytes);
    assert_eq!(d.bytes_of_layer(1), &bytes[..]);
    assert_eq!(d.bytes_of_layer(0), &[0u8; 16][..]);
    assert_eq!(d.data[256 + 15], 16);
    assert_eq!(d.data[256 + 16], 0);
}
