//! The layout of a tileset atlas: where the autotiles and the tileset go in one texture, which
//! pieces are copied where, and where each tile id is found.
use vstd::prelude::*;

verus! {

/// Max texture size in one dimension
pub const MAX_SIZE: u32 = 8192;
/// Tiles are 32x32
pub const TILE_SIZE: u32 = 32;
/// Tilesets are 8 tiles across
pub const TILESET_COLUMNS: u32 = 8;
pub const TILESET_WIDTH: u32 = 256;
/// There are 48 tile ids per autotile
pub const AUTOTILE_ID_AMOUNT: u32 = 48;
/// How many columns of autotiles there are per frame
pub const AUTOTILE_FRAME_COLS: u32 = 8;
/// There are 7 autotiles per tileset
pub const AUTOTILE_AMOUNT: u32 = 7;
/// The first 384 tile ids are for autotiles (including empty tiles)
pub const TOTAL_AUTOTILE_ID_AMOUNT: u32 = 384;
/// The 48 tiles of an autotile take 6 rows of 8
pub const AUTOTILE_ROWS: u32 = 6;
pub const TOTAL_AUTOTILE_ROWS: u32 = 42;
/// How high one row of autotiles is
pub const AUTOTILE_ROW_HEIGHT: u32 = 192;
pub const TOTAL_AUTOTILE_HEIGHT: u32 = 1344;
/// The height under the autotiles
pub const HEIGHT_UNDER_AUTOTILES: u32 = 6848;
/// The number of rows under the autotiles
pub const ROWS_UNDER_AUTOTILES: u32 = 214;
pub const ROWS_UNDER_AUTOTILES_TIMES_COLUMNS: u32 = 1712;
/// The width of one frame of autotiles
pub const AUTOTILE_FRAME_WIDTH: u32 = 256;

/// The four sub-tiles, by their index in an autotile image, that make up each of the 48 tiles
/// of an autotile: top left, top right, bottom left, bottom right.
pub open spec fn autotile_row(t: usize) -> Seq<u32> {
    match t {
        0 => seq![26u32, 27, 32, 33],
        1 => seq![4u32, 27, 32, 33],
        2 => seq![26u32, 5, 32, 33],
        3 => seq![4u32, 5, 32, 33],
        4 => seq![26u32, 27, 32, 11],
        5 => seq![4u32, 27, 32, 11],
        6 => seq![26u32, 5, 32, 11],
        7 => seq![4u32, 5, 32, 11],
        8 => seq![26u32, 27, 10, 33],
        9 => seq![4u32, 27, 10, 33],
        10 => seq![26u32, 5, 10, 33],
        11 => seq![4u32, 5, 10, 33],
        12 => seq![26u32, 27, 10, 11],
        13 => seq![4u32, 27, 10, 11],
        14 => seq![26u32, 5, 10, 11],
        15 => seq![4u32, 5, 10, 11],
        16 => seq![24u32, 25, 30, 31],
        17 => seq![24u32, 5, 30, 31],
        18 => seq![24u32, 25, 30, 11],
        19 => seq![24u32, 5, 30, 11],
        20 => seq![14u32, 15, 20, 21],
        21 => seq![14u32, 15, 20, 11],
        22 => seq![14u32, 15, 10, 21],
        23 => seq![14u32, 15, 10, 11],
        24 => seq![28u32, 29, 34, 35],
        25 => seq![28u32, 29, 10, 35],
        26 => seq![4u32, 29, 34, 35],
        27 => seq![4u32, 29, 10, 35],
        28 => seq![38u32, 39, 44, 45],
        29 => seq![4u32, 39, 44, 45],
        30 => seq![38u32, 5, 44, 45],
        31 => seq![4u32, 5, 44, 45],
        32 => seq![24u32, 29, 30, 35],
        33 => seq![14u32, 15, 44, 45],
        34 => seq![12u32, 13, 18, 19],
        35 => seq![12u32, 13, 18, 11],
        36 => seq![16u32, 17, 22, 23],
        37 => seq![16u32, 17, 10, 23],
        38 => seq![40u32, 41, 46, 47],
        39 => seq![4u32, 41, 46, 47],
        40 => seq![36u32, 37, 42, 43],
        41 => seq![36u32, 5, 42, 43],
        42 => seq![12u32, 17, 18, 23],
        43 => seq![12u32, 13, 42, 43],
        44 => seq![36u32, 41, 42, 47],
        45 => seq![16u32, 17, 46, 47],
        46 => seq![12u32, 17, 42, 47],
        47 => seq![0u32, 1, 6, 7],
        _ => seq![0u32, 1, 6, 7],
    }
}

/// The four sub-tiles that make up tile `t` of an autotile.
pub fn autotile_ids(t: usize) -> (r: [u32; 4])
    requires
        t < 48,
    ensures
        r@ == autotile_row(t),
{
    let r: [u32; 4] = match t {
        0 => [26, 27, 32, 33],
        1 => [4, 27, 32, 33],
        2 => [26, 5, 32, 33],
        3 => [4, 5, 32, 33],
        4 => [26, 27, 32, 11],
        5 => [4, 27, 32, 11],
        6 => [26, 5, 32, 11],
        7 => [4, 5, 32, 11],
        8 => [26, 27, 10, 33],
        9 => [4, 27, 10, 33],
        10 => [26, 5, 10, 33],
        11 => [4, 5, 10, 33],
        12 => [26, 27, 10, 11],
        13 => [4, 27, 10, 11],
        14 => [26, 5, 10, 11],
        15 => [4, 5, 10, 11],
        16 => [24, 25, 30, 31],
        17 => [24, 5, 30, 31],
        18 => [24, 25, 30, 11],
        19 => [24, 5, 30, 11],
        20 => [14, 15, 20, 21],
        21 => [14, 15, 20, 11],
        22 => [14, 15, 10, 21],
        23 => [14, 15, 10, 11],
        24 => [28, 29, 34, 35],
        25 => [28, 29, 10, 35],
        26 => [4, 29, 34, 35],
        27 => [4, 29, 10, 35],
        28 => [38, 39, 44, 45],
        29 => [4, 39, 44, 45],
        30 => [38, 5, 44, 45],
        31 => [4, 5, 44, 45],
        32 => [24, 29, 30, 35],
        33 => [14, 15, 44, 45],
        34 => [12, 13, 18, 19],
        35 => [12, 13, 18, 11],
        36 => [16, 17, 22, 23],
        37 => [16, 17, 10, 23],
        38 => [40, 41, 46, 47],
        39 => [4, 41, 46, 47],
        40 => [36, 37, 42, 43],
        41 => [36, 5, 42, 43],
        42 => [12, 17, 18, 23],
        43 => [12, 13, 42, 43],
        44 => [36, 41, 42, 47],
        45 => [16, 17, 46, 47],
        46 => [12, 17, 42, 47],
        _ => [0, 1, 6, 7],
    };
    assert(r@ =~= autotile_row(t));
    r
}

/// Which sides of tile `t` of an autotile border on ground of another kind, as
/// `(left, top, right, bottom)`: the tiles come in groups, first those with no such side, then
/// those with one, two facing, two meeting, three and four.
pub open spec fn autotile_open_sides(t: int) -> (bool, bool, bool, bool) {
    if t < 16 {
        (false, false, false, false)
    } else if t < 20 {
        (true, false, false, false)
    } else if t < 24 {
        (false, true, false, false)
    } else if t < 28 {
        (false, false, true, false)
    } else if t < 32 {
        (false, false, false, true)
    } else if t == 32 {
        (true, false, true, false)
    } else if t == 33 {
        (false, true, false, true)
    } else if t < 36 {
        (true, true, false, false)
    } else if t < 38 {
        (false, true, true, false)
    } else if t < 40 {
        (false, false, true, true)
    } else if t < 42 {
        (true, false, false, true)
    } else if t == 42 {
        (true, true, true, false)
    } else if t == 43 {
        (true, true, false, true)
    } else if t == 44 {
        (true, false, true, true)
    } else if t == 45 {
        (false, true, true, true)
    } else {
        (true, true, true, true)
    }
}

/// The first tile of the group of tile `t`; the tiles of a group differ only in which of their
/// free corners touch ground of another kind diagonally.
pub open spec fn autotile_group_start(t: int) -> int {
    if t < 16 {
        0
    } else if t < 32 {
        t - t % 4
    } else if t < 34 {
        t
    } else if t < 42 {
        t - t % 2
    } else {
        t
    }
}

/// Whether the horizontal side next to corner `k` (0 top left, 1 top right, 2 bottom left,
/// 3 bottom right) of tile `t` is open, and whether the side across from it is.
pub open spec fn corner_sides(t: int, k: int) -> (bool, bool, bool, bool) {
    let (l, tp, r, b) = autotile_open_sides(t);
    let h = if k % 2 == 0 { l } else { r };
    let h_across = if k % 2 == 0 { r } else { l };
    let v = if k < 2 { tp } else { b };
    let v_across = if k < 2 { b } else { tp };
    (h, h_across, v, v_across)
}

/// A corner is free when neither side it touches is open.
pub open spec fn corner_free(t: int, k: int) -> bool {
    !corner_sides(t, k).0 && !corner_sides(t, k).2
}

/// The place of corner `k` going clockwise from the top left one.
pub open spec fn clockwise(k: int) -> int {
    if k == 0 {
        0
    } else if k == 1 {
        1
    } else if k == 3 {
        2
    } else {
        3
    }
}

/// Where the clockwise count of free corners starts: just past the open side of a tile with one
/// open side, at the top left corner otherwise.
pub open spec fn corner_count_start(t: int) -> int {
    if 16 <= t < 32 {
        (t - 16) / 4
    } else {
        0
    }
}

/// How many free corners of tile `t` come before corner `k` going clockwise from the start.
pub open spec fn corner_bit(t: int, k: int) -> int {
    let s = corner_count_start(t);
    let rel = |c: int| (clockwise(c) - s + 4) % 4;
    (if corner_free(t, 0) && rel(0) < rel(k) { 1int } else { 0 }) + (if corner_free(t, 1) && rel(1) < rel(k) {
        1int
    } else {
        0
    }) + (if corner_free(t, 2) && rel(2) < rel(k) { 1int } else { 0 }) + (if corner_free(t, 3) && rel(3)
        < rel(k) {
        1int
    } else {
        0
    })
}

/// Whether the free corner `k` of tile `t` touches other ground diagonally: the bits of the
/// tile's place in its group, one per free corner in clockwise order.
pub open spec fn inner_corner(t: int, k: int) -> bool {
    corner_free(t, k) && ((t - autotile_group_start(t)) / pow2_of(corner_bit(t, k))) % 2 == 1
}

/// `2^n` for the few small `n` needed here.
pub open spec fn pow2_of(n: int) -> int {
    if n <= 0 {
        1
    } else if n == 1 {
        2
    } else if n == 2 {
        4
    } else {
        8
    }
}

/// Sub-tile `k` of an autotile image laid out as 6 sub-tiles across: the 3x3 block of tiles
/// below the top row holds the ground with its borders, the tile at the top right the corners
/// cut in by diagonal neighbours, the tile at the top left a lone patch of ground.
/// Column `col` and row `row` pick a tile of the 3x3 block.
pub open spec fn block_piece(k: int, col: int, row: int) -> int {
    (2 + 2 * row + k / 2) * 6 + 2 * col + k % 2
}

/// The sub-tile that gives corner `k` of tile `t`, worked out from the sides and corners of the
/// tile that border on other ground: a lone patch for the last tile; the cut-in corner piece for
/// a free corner with a diagonal neighbour; else corner `k` of the tile of the 3x3 block that
/// lies on the open side next to the corner, or on the open side across from it, or in the
/// middle.
pub open spec fn autotile_piece(t: int, k: int) -> int {
    if t == 47 {
        (k / 2) * 6 + k % 2
    } else if inner_corner(t, k) {
        (k / 2) * 6 + 4 + k % 2
    } else {
        let (h, h_across, v, v_across) = corner_sides(t, k);
        let col = if h {
            if k % 2 == 0 { 0int } else { 2 }
        } else if h_across {
            if k % 2 == 0 { 2int } else { 0 }
        } else {
            1
        };
        let row = if v {
            if k < 2 { 0int } else { 2 }
        } else if v_across {
            if k < 2 { 2int } else { 0 }
        } else {
            1
        };
        block_piece(k, col, row)
    }
}

/// Every sub-tile of the 48 tiles of an autotile is the one the borders of the tile call for.
pub proof fn lemma_autotile_pieces(t: usize, k: int)
    requires
        t < 48,
        0 <= k < 4,
    ensures
        autotile_row(t).len() == 4,
        autotile_row(t)[k] == autotile_piece(t as int, k),
{
}

/// `a / b` rounded up.
pub open spec fn ceil_div(a: int, b: int) -> int {
    (a + b - 1) / b
}

/// The height of the tileset in the atlas: the image's height rounded down to whole tiles, or 256
/// without an image.
pub fn tileset_height_of(image_height: Option<u32>) -> (r: u32)
    ensures
        r == match image_height {
            Some(h) => h / 32 * 32,
            None => 256,
        },
{
    match image_height {
        Some(h) => h / TILE_SIZE * TILE_SIZE,
        None => 256,
    }
}

/// The number of frames of each autotile: its width in 96-pixel frames, one frame for a missing
/// autotile.
pub fn autotile_frames_of(widths: &Vec<Option<u32>>) -> (r: Vec<u32>)
    ensures
        r@.len() == widths@.len(),
        forall|i: int| 0 <= i < widths@.len() ==> #[trigger] r@[i] == match widths@[i] {
            Some(w) => w / 96,
            None => 1,
        },
{
    let mut out: Vec<u32> = Vec::new();
    let mut i: usize = 0;
    while i < widths.len()
        invariant
            i <= widths@.len(),
            out@.len() == i,
            forall|j: int| 0 <= j < i ==> #[trigger] out@[j] == match widths@[j] {
                Some(w) => w / 96,
                None => 1,
            },
        decreases widths@.len() - i,
    {
        let f = match widths[i] {
            Some(w) => w / 96,
            None => 96 / 96,
        };
        out.push(f);
        i += 1;
    }
    out
}

/// The widest autotile in the atlas, in pixels: 256 per frame.
pub open spec fn widest(frames: Seq<u32>) -> int
    decreases frames.len(),
{
    if frames.len() == 0 {
        0
    } else {
        let rest = widest(frames.drop_last());
        let w = frames.last() * 256;
        if w > rest { w } else { rest }
    }
}

/// The width of the autotiles in the atlas: that of the autotile with the most frames, or one
/// frame when there is none.
pub fn autotile_width_of(frames: &Vec<u32>) -> (r: u32)
    requires
        forall|i: int| 0 <= i < frames@.len() ==> #[trigger] frames@[i] * 256 <= u32::MAX,
    ensures
        r == if frames@.len() == 0 { 256 } else { widest(frames@) },
{
    if frames.len() == 0 {
        return AUTOTILE_FRAME_WIDTH;
    }
    let mut best: u32 = 0;
    let mut i: usize = 0;
    assert(frames@.take(0) =~= seq![]);
    while i < frames.len()
        invariant
            i <= frames@.len(),
            forall|j: int| 0 <= j < frames@.len() ==> #[trigger] frames@[j] * 256 <= u32::MAX,
            best == widest(frames@.take(i as int)),
        decreases frames@.len() - i,
    {
        let w = frames[i] * AUTOTILE_FRAME_WIDTH;
        assert(frames@.take(i + 1).drop_last() =~= frames@.take(i as int));
        if w > best {
            best = w;
        }
        i += 1;
    }
    assert(frames@.take(frames@.len() as int) =~= frames@);
    best
}

/// The size of the atlas and how the tileset is split into columns: `rows_under` columns under
/// the autotiles, `rows_side` more beside them, each as high as the atlas.
#[derive(Clone, Copy, Debug, PartialEq, Eq, Structural)]
pub struct AtlasLayout {
    pub width: u32,
    pub height: u32,
    pub rows_under: u32,
    pub rows_side: u32,
}

/// The layout of the atlas: when the tileset fits under the autotiles, one column; else as many
/// columns under the autotiles as the tileset needs, but no more than the autotiles are wide, and
/// the rest of the tileset in full-height columns beside them.
pub open spec fn layout_spec(tileset_height: int, autotile_width: int) -> AtlasLayout {
    if 1344 + tileset_height < 8192 {
        AtlasLayout {
            width: (if autotile_width > 256 { autotile_width } else { 256 }) as u32,
            height: (1344 + tileset_height) as u32,
            rows_under: 1,
            rows_side: 0,
        }
    } else {
        let a = ceil_div(tileset_height, 6848);
        let b = ceil_div(autotile_width, 256);
        let under = if a < b { a } else { b };
        let left = if tileset_height > under * 6848 { tileset_height - under * 6848 } else { 0 };
        let side = ceil_div(left, 8192);
        let w = (under + side) * 256;
        AtlasLayout {
            width: (if w > autotile_width { w } else { autotile_width }) as u32,
            height: 8192,
            rows_under: under as u32,
            rows_side: side as u32,
        }
    }
}

/// Computes the layout of the atlas for a tileset of the given height and autotiles of the given
/// width.
pub fn atlas_layout(tileset_height: u32, autotile_width: u32) -> (r: AtlasLayout)
    requires
        tileset_height <= 0x4000_0000,
        autotile_width <= 0x4000_0000,
    ensures
        r == layout_spec(tileset_height as int, autotile_width as int),
{
    if TOTAL_AUTOTILE_HEIGHT + tileset_height < MAX_SIZE {
        let width = if autotile_width > TILESET_WIDTH { autotile_width } else { TILESET_WIDTH };
        AtlasLayout { width, height: TOTAL_AUTOTILE_HEIGHT + tileset_height, rows_under: 1, rows_side: 0 }
    } else {
        let a = (tileset_height + HEIGHT_UNDER_AUTOTILES - 1) / HEIGHT_UNDER_AUTOTILES;
        let b = (autotile_width + TILESET_WIDTH - 1) / TILESET_WIDTH;
        let under = if a < b { a } else { b };
        assert(under * 6848 <= tileset_height + 6848) by (nonlinear_arith)
            requires
                under <= a,
                a == (tileset_height + 6847) / 6848,
                0 <= tileset_height,
        ;
        let left = if tileset_height > under * HEIGHT_UNDER_AUTOTILES {
            tileset_height - under * HEIGHT_UNDER_AUTOTILES
        } else {
            0
        };
        let side = (left + MAX_SIZE - 1) / MAX_SIZE;
        let w = (under + side) * TILESET_WIDTH;
        AtlasLayout {
            width: if w > autotile_width { w } else { autotile_width },
            height: MAX_SIZE,
            rows_under: under,
            rows_side: side,
        }
    }
}

/// The atlas holds everything it is made for: it is exactly as wide as the wider of the
/// autotiles (every frame of them) and the tileset columns, 256 pixels each; it is no higher
/// than the largest texture and at least as high as the autotiles; and the tileset columns, under the
/// autotiles and beside them, are together at least as high as the tileset.
pub proof fn lemma_atlas_layout_fits(tileset_height: int, autotile_width: int)
    requires
        0 <= tileset_height <= 0x4000_0000,
        0 <= autotile_width <= 0x4000_0000,
    ensures
        ({
            let l = layout_spec(tileset_height, autotile_width);
            let columns = (l.rows_under + l.rows_side) * 256;
            &&& l.width >= autotile_width
            &&& l.width >= 256
            &&& l.width >= columns
            &&& (l.width == autotile_width || l.width == columns)
            &&& 1344 <= l.height <= 8192
            &&& l.rows_under * (l.height - 1344) + l.rows_side * l.height >= tileset_height
        }),
{
    let l = layout_spec(tileset_height, autotile_width);
    if 1344 + tileset_height >= 8192 {
        let a = ceil_div(tileset_height, 6848);
        let b = ceil_div(autotile_width, 256);
        let under = if a < b { a } else { b };
        let left = if tileset_height > under * 6848 { tileset_height - under * 6848 } else { 0 };
        let side = ceil_div(left, 8192);
        let w = (under + side) * 256;
        assert(1 <= a <= 0x4000_0000int / 6848 + 1);
        assert(0 <= b <= 0x4000_0000int / 256 + 1);
        assert(0 <= under <= b);
        assert(under * 6848 >= 0) by (nonlinear_arith)
            requires
                under >= 0,
        ;
        assert(0 <= left <= tileset_height);
        assert(0 <= side <= 0x4000_0000int / 8192 + 1);
        assert(side * 8192 >= left) by (nonlinear_arith)
            requires
                side == (left + 8191) / 8192,
                left >= 0,
        ;
        assert(under * 6848 + side * 8192 >= tileset_height);
        assert(under + side >= 1) by {
            if under == 0 {
                assert(left == tileset_height);
            }
        }
        assert(256 <= w < 0x1_0000_0000int);
        assert(l.rows_under == under && l.rows_side == side);
        assert(l.width as int == if w > autotile_width { w } else { autotile_width });
    }
}

/// A 16x16 piece of an autotile image copied into the atlas.
#[derive(Clone, Copy, Debug, PartialEq, Eq, Structural)]
pub struct TileCopy {
    pub src_x: u32,
    pub src_y: u32,
    pub dst_x: u32,
    pub dst_y: u32,
}

/// The copy of sub-tile `k` of tile `t` of frame `f` of autotile `index`: sub-tile `s` of the
/// 96-pixel frame (6 sub-tiles across) goes to the `k`-th quarter of tile `t` (8 tiles across)
/// of the frame's 256-pixel column, in the 192-pixel row of the autotile.
pub open spec fn copy_spec(index: int, f: int, t: int, k: int) -> TileCopy {
    let s = autotile_row(t as usize)[k];
    TileCopy {
        src_x: (s % 6 * 16 + f * 96) as u32,
        src_y: (s / 6 * 16) as u32,
        dst_x: (f * 256 + t % 8 * 32 + k % 2 * 16) as u32,
        dst_y: (index * 192 + t / 8 * 32 + k / 2 * 16) as u32,
    }
}

/// The copies that put the frames of autotile `index` into the atlas, frame by frame, tile by
/// tile, sub-tile by sub-tile.
pub fn autotile_copies(index: u32, frames: u32) -> (r: Vec<TileCopy>)
    requires
        index < 7,
        frames <= 0x10_0000,
    ensures
        r@.len() == frames * 192,
        forall|f: int, t: int, k: int| 0 <= f < frames && 0 <= t < 48 && 0 <= k < 4
            ==> #[trigger] r@[(f * 48 + t) * 4 + k] == copy_spec(index as int, f, t, k),
{
    let mut out: Vec<TileCopy> = Vec::new();
    let mut f: u32 = 0;
    while f < frames
        invariant
            index < 7,
            frames <= 0x10_0000,
            f <= frames,
            out@.len() == f * 192,
            forall|ff: int, t: int, k: int| 0 <= ff < f && 0 <= t < 48 && 0 <= k < 4
                ==> #[trigger] out@[(ff * 48 + t) * 4 + k] == copy_spec(index as int, ff, t, k),
        decreases frames - f,
    {
        let mut t: usize = 0;
        while t < 48
            invariant
                index < 7,
                frames <= 0x10_0000,
                f < frames,
                t <= 48,
                out@.len() == f * 192 + t * 4,
                forall|ff: int, tt: int, k: int| 0 <= ff < f && 0 <= tt < 48 && 0 <= k < 4
                    ==> #[trigger] out@[(ff * 48 + tt) * 4 + k] == copy_spec(index as int, ff, tt, k),
                forall|tt: int, k: int| 0 <= tt < t && 0 <= k < 4
                    ==> #[trigger] out@[(f * 48 + tt) * 4 + k] == copy_spec(index as int, f as int, tt, k),
            decreases 48 - t,
        {
            let ids = autotile_ids(t);
            let mut k: usize = 0;
            while k < 4
                invariant
                    index < 7,
                    frames <= 0x10_0000,
                    f < frames,
                    t < 48,
                    k <= 4,
                    ids@ == autotile_row(t),
                    out@.len() == f * 192 + t * 4 + k,
                    forall|ff: int, tt: int, kk: int| 0 <= ff < f && 0 <= tt < 48 && 0 <= kk < 4
                        ==> #[trigger] out@[(ff * 48 + tt) * 4 + kk] == copy_spec(index as int, ff, tt, kk),
                    forall|tt: int, kk: int| 0 <= tt < t && 0 <= kk < 4
                        ==> #[trigger] out@[(f * 48 + tt) * 4 + kk] == copy_spec(index as int, f as int, tt, kk),
                    forall|kk: int| 0 <= kk < k ==> #[trigger] out@[(f * 48 + t) * 4 + kk] == copy_spec(index as int, f as int, t as int, kk),
                decreases 4 - k,
            {
                let s = ids[k];
                assert(s <= 47);
                let c = TileCopy {
                    src_x: s % 6 * 16 + f * 96,
                    src_y: s / 6 * 16,
                    dst_x: f * AUTOTILE_FRAME_WIDTH + (t as u32) % AUTOTILE_FRAME_COLS * TILE_SIZE + (k as u32) % 2 * 16,
                    dst_y: index * AUTOTILE_ROW_HEIGHT + (t as u32) / AUTOTILE_FRAME_COLS * TILE_SIZE + (k as u32) / 2 * 16,
                };
                let ghost before = out@;
                out.push(c);
                proof {
                    assert((f * 48 + t) * 4 + k == f * 192 + t * 4 + k);
                    assert forall|ff: int, tt: int, kk: int| 0 <= ff < f && 0 <= tt < 48 && 0 <= kk < 4
                        implies #[trigger] out@[(ff * 48 + tt) * 4 + kk] == copy_spec(index as int, ff, tt, kk) by {
                        assert((ff * 48 + tt) * 4 + kk < f * 192) by (nonlinear_arith)
                            requires
                                0 <= ff < f,
                                0 <= tt < 48,
                                0 <= kk < 4,
                        ;
                        assert(out@[(ff * 48 + tt) * 4 + kk] == before[(ff * 48 + tt) * 4 + kk]);
                    }
                    assert forall|tt: int, kk: int| 0 <= tt < t && 0 <= kk < 4
                        implies #[trigger] out@[(f * 48 + tt) * 4 + kk] == copy_spec(index as int, f as int, tt, kk) by {
                        assert(out@[(f * 48 + tt) * 4 + kk] == before[(f * 48 + tt) * 4 + kk]);
                    }
                    assert forall|kk: int| 0 <= kk < k + 1 implies #[trigger] out@[(f * 48 + t) * 4 + kk]
                        == copy_spec(index as int, f as int, t as int, kk) by {
                        if kk < k {
                            assert(out@[(f * 48 + t) * 4 + kk] == before[(f * 48 + t) * 4 + kk]);
                        }
                    }
                }
                k += 1;
            }
            t += 1;
        }
        f += 1;
    }
    out
}

/// A band of the tileset image copied into the atlas: `height` rows from `src_y` on, to
/// `(dst_x, dst_y)`.
#[derive(Clone, Copy, Debug, PartialEq, Eq, Structural)]
pub struct TileRegion {
    pub src_y: u32,
    pub height: u32,
    pub dst_x: u32,
    pub dst_y: u32,
}

/// The band of the tileset that goes into column `i` under the autotiles.
pub open spec fn region_under(tileset_height: int, i: int) -> TileRegion {
    let y = 6848 * i;
    TileRegion {
        src_y: y as u32,
        height: (if y + 6848 > tileset_height { tileset_height - y } else { 6848 }) as u32,
        dst_x: (256 * i) as u32,
        dst_y: 1344,
    }
}

/// The band of the tileset that goes into full-height column `i` beside the autotiles.
pub open spec fn region_side(tileset_height: int, under: int, i: int) -> TileRegion {
    let y = 6848 * under + 8192 * i;
    TileRegion {
        src_y: y as u32,
        height: (if y + 8192 > tileset_height { tileset_height - y } else { 8192 }) as u32,
        dst_x: (256 * (under + i)) as u32,
        dst_y: 0,
    }
}

/// Below `ceil_div(a, b)`, a multiple of `b` stays below `a`.
proof fn lemma_below_ceil(a: int, b: int, i: int)
    requires
        0 <= a,
        0 < b,
        0 <= i < ceil_div(a, b),
    ensures
        b * i < a,
{
    assert(b * i < a) by (nonlinear_arith)
        requires
            0 <= a,
            0 < b,
            0 <= i,
            i < (a + b - 1) / b,
    ;
}

/// The bands of the tileset and where they go in the atlas: the whole tileset under the
/// autotiles when it fits, else the columns under the autotiles and then those beside them.
pub fn tileset_regions(tileset_height: u32, autotile_width: u32) -> (r: Vec<TileRegion>)
    requires
        tileset_height <= 0x4000_0000,
        autotile_width <= 0x4000_0000,
    ensures
        ({
            let l = layout_spec(tileset_height as int, autotile_width as int);
            if 1344 + tileset_height < 8192 {
                r@ == seq![TileRegion { src_y: 0, height: tileset_height, dst_x: 0, dst_y: 1344 }]
            } else {
                &&& r@.len() == l.rows_under + l.rows_side
                &&& forall|i: int| 0 <= i < l.rows_under ==> #[trigger] r@[i] == region_under(tileset_height as int, i)
                &&& forall|i: int| 0 <= i < l.rows_side ==> #[trigger] r@[l.rows_under + i]
                    == region_side(tileset_height as int, l.rows_under as int, i)
            }
        }),
{
    let layout = atlas_layout(tileset_height, autotile_width);
    let mut out: Vec<TileRegion> = Vec::new();
    if TOTAL_AUTOTILE_HEIGHT + tileset_height < MAX_SIZE {
        out.push(TileRegion { src_y: 0, height: tileset_height, dst_x: 0, dst_y: TOTAL_AUTOTILE_HEIGHT });
        return out;
    }
    let ghost th = tileset_height as int;
    let under = layout.rows_under;
    let side = layout.rows_side;
    assert(under <= ceil_div(th, 6848));
    assert(under <= ceil_div(autotile_width as int, 256));
    let mut i: u32 = 0;
    while i < under
        invariant
            th == tileset_height,
            tileset_height <= 0x4000_0000,
            autotile_width <= 0x4000_0000,
            under <= ceil_div(th, 6848),
            under <= ceil_div(autotile_width as int, 256),
            i <= under,
            out@.len() == i,
            forall|j: int| 0 <= j < i ==> #[trigger] out@[j] == region_under(th, j),
        decreases under - i,
    {
        proof {
            lemma_below_ceil(th, 6848, i as int);
        }
        let y = HEIGHT_UNDER_AUTOTILES * i;
        let height = if y + HEIGHT_UNDER_AUTOTILES > tileset_height { tileset_height - y } else { HEIGHT_UNDER_AUTOTILES };
        out.push(TileRegion { src_y: y, height, dst_x: TILESET_WIDTH * i, dst_y: TOTAL_AUTOTILE_HEIGHT });
        i += 1;
    }
    let ghost left = if th > under * 6848 { th - under * 6848 } else { 0 };
    assert(side == ceil_div(left, 8192));
    let mut i: u32 = 0;
    while i < side
        invariant
            th == tileset_height,
            tileset_height <= 0x4000_0000,
            under <= ceil_div(th, 6848),
            left == if th > under * 6848 { th - under * 6848 } else { 0 },
            side == ceil_div(left, 8192),
            i <= side,
            out@.len() == under + i,
            forall|j: int| 0 <= j < under ==> #[trigger] out@[j] == region_under(th, j),
            forall|j: int| 0 <= j < i ==> #[trigger] out@[under + j] == region_side(th, under as int, j),
        decreases side - i,
    {
        proof {
            lemma_below_ceil(left, 8192, i as int);
        }
        let y = HEIGHT_UNDER_AUTOTILES * under + MAX_SIZE * i;
        let height = if y + MAX_SIZE > tileset_height { tileset_height - y } else { MAX_SIZE };
        let ghost before = out@;
        out.push(TileRegion { src_y: y, height, dst_x: TILESET_WIDTH * (under + i), dst_y: 0 });
        proof {
            assert forall|j: int| 0 <= j < under implies #[trigger] out@[j] == region_under(th, j) by {
                assert(out@[j] == before[j]);
            }
            assert forall|j: int| 0 <= j < i + 1 implies #[trigger] out@[under + j] == region_side(th, under as int, j) by {
                if j < i {
                    assert(out@[under + j] == before[under + j]);
                }
            }
        }
        i += 1;
    }
    out
}

/// Where the tile `tile` lies in the atlas, in pixels: blank autotiles at the origin, the other
/// autotiles in their rows, then the tileset in columns under the autotiles and beside them.
pub open spec fn tile_position_spec(tile: i16, autotile_width: u32) -> (u32, u32) {
    let t: int = if tile < 0 { 0 } else { tile as int };
    let frames = autotile_width / 256;
    let under = frames * 1712;
    if t < 48 {
        (0, 0)
    } else if t < 384 {
        (((t - 48) % 8 * 32) as u32, ((t - 48) / 8 * 32) as u32)
    } else if t - 384 < under {
        (((t % 8 + (t - 384) / 1712 * 8) * 32) as u32, (((t - 384) / 8 % 214 + 42) * 32) as u32)
    } else {
        (
            ((t % 8 + ((t - 384 - under) / 2048 + frames) * 8) * 32) as u32,
            ((t - 384 - under) / 8 % 256 * 32) as u32,
        )
    }
}

/// The position in the atlas, in pixels, of the top left corner of the tile `tile`.
pub fn tile_position(tile: i16, autotile_width: u32) -> (r: (u32, u32))
    requires
        autotile_width <= 0x100_0000,
    ensures
        r == tile_position_spec(tile, autotile_width),
{
    let t: u32 = if tile < 0 { 0 } else { tile as u32 };
    let frames = autotile_width / AUTOTILE_FRAME_WIDTH;
    let under = frames * ROWS_UNDER_AUTOTILES_TIMES_COLUMNS;
    if t < AUTOTILE_ID_AMOUNT {
        (0, 0)
    } else if t < TOTAL_AUTOTILE_ID_AMOUNT {
        ((t - AUTOTILE_ID_AMOUNT) % AUTOTILE_FRAME_COLS * TILE_SIZE, (t - AUTOTILE_ID_AMOUNT) / AUTOTILE_FRAME_COLS * TILE_SIZE)
    } else if t - TOTAL_AUTOTILE_ID_AMOUNT < under {
        (
            (t % TILESET_COLUMNS + (t - TOTAL_AUTOTILE_ID_AMOUNT) / ROWS_UNDER_AUTOTILES_TIMES_COLUMNS * TILESET_COLUMNS) * TILE_SIZE,
            ((t - TOTAL_AUTOTILE_ID_AMOUNT) / TILESET_COLUMNS % ROWS_UNDER_AUTOTILES + TOTAL_AUTOTILE_ROWS) * TILE_SIZE,
        )
    } else {
        let rest = t - TOTAL_AUTOTILE_ID_AMOUNT - under;
        (
            (t % TILESET_COLUMNS + (rest / (MAX_SIZE / TILE_SIZE * TILESET_COLUMNS) + frames) * TILESET_COLUMNS) * TILE_SIZE,
            rest / TILESET_COLUMNS % (MAX_SIZE / TILE_SIZE) * TILE_SIZE,
        )
    }
}

/// The animation state of the autotiles of an atlas.
#[derive(Clone, Debug)]
pub struct AutotileData {
    pub autotile_frames: Vec<u32>,
    pub ani_index: u32,
    pub max_frame_count: u32,
}

impl AutotileData {
    /// The state of a fresh atlas: the first animation step, and as many frames as the widest
    /// autotile has.
    pub fn new(autotile_frames: Vec<u32>, autotile_width: u32) -> (r: AutotileData)
        ensures
            r.autotile_frames@ == autotile_frames@,
            r.ani_index == 0,
            r.max_frame_count == autotile_width / 256,
    {
        AutotileData { autotile_frames, ani_index: 0, max_frame_count: autotile_width / AUTOTILE_FRAME_WIDTH }
    }

    /// Moves the animation one step on, wrapping around.
    pub fn inc_ani_index(&mut self)
        ensures
            final(self).ani_index == (old(self).ani_index + 1) % 0x1_0000_0000,
            final(self).autotile_frames@ == old(self).autotile_frames@,
            final(self).max_frame_count == old(self).max_frame_count,
    {
        self.ani_index = self.ani_index.wrapping_add(1);
    }
}

/// The size in bytes of the data of one tilemap layer in its uniform buffer: an opacity and a hue
/// as `f32`, and the map size as two `u32`, laid out as in C.
pub const LAYER_DATA_SIZE: usize = 16;

/// The alignment in bytes of the data of one tilemap layer.
pub const LAYER_DATA_ALIGN: usize = 4;

/// `value` rounded up to a multiple of `alignment`: the first number at least `value` that is a
/// multiple of `alignment`.
pub open spec fn align_up(value: int, alignment: int) -> int {
    if value % alignment == 0 {
        value
    } else {
        value + alignment - value % alignment
    }
}

/// Replacing the data of one layer of a buffer leaves the data of every other layer as it was.
pub proof fn lemma_other_layers_kept(a: LayerData, b: LayerData, layer: int, bytes: Seq<u8>, k: int)
    requires
        0 <= layer,
        layer * a.stride() + 16 <= a.data@.len(),
        bytes.len() == 16,
        b.min_alignment_size == a.min_alignment_size,
        b.data@ == a.data@.subrange(0, layer * a.stride()) + bytes + a.data@.subrange(layer * a.stride() + 16, a.data@.len() as int),
        0 <= k,
        k != layer,
        k * a.stride() + 16 <= a.data@.len(),
    ensures
        b.stride() == a.stride(),
        b.data@.subrange(k * b.stride(), k * b.stride() + 16) == a.data@.subrange(k * a.stride(), k * a.stride() + 16),
{
    let st = a.stride();
    let al = if a.min_alignment_size > 4 { a.min_alignment_size as int } else { 4 };
    assert(st >= 16) by {
        assert(16int % al >= 0 && 16int % al < al) by (nonlinear_arith)
            requires al > 0;
    }
    if k < layer {
        assert(k * st + st <= layer * st) by (nonlinear_arith)
            requires k < layer, st >= 0;
    } else {
        assert(layer * st + st <= k * st) by (nonlinear_arith)
            requires layer < k, st >= 0;
    }
    assert(b.data@.subrange(k * st, k * st + 16) =~= a.data@.subrange(k * st, k * st + 16));
}

/// The space that the data of one layer takes in the buffer: its size rounded up to a multiple of
/// the larger of the device's minimum uniform offset alignment and its own alignment.
pub fn aligned_size_of(min_alignment_size: u32) -> (r: usize)
    ensures
        r == align_up(16, if min_alignment_size > 4 { min_alignment_size as int } else { 4 }),
        r >= 16,
{
    let alignment: usize = if min_alignment_size as usize > LAYER_DATA_ALIGN {
        min_alignment_size as usize
    } else {
        LAYER_DATA_ALIGN
    };
    let remainder = LAYER_DATA_SIZE % alignment;
    if remainder == 0 {
        LAYER_DATA_SIZE
    } else {
        assert(remainder <= 16 && (alignment > 16 ==> remainder == 16)) by (nonlinear_arith)
            requires
                remainder == 16usize % alignment,
                alignment > 0,
        ;
        (LAYER_DATA_SIZE - remainder) + alignment
    }
}

/// The bytes of the uniform buffer of a tilemap: the data of each layer, one after the other at
/// aligned offsets.
pub struct LayerData {
    pub data: Vec<u8>,
    pub min_alignment_size: u32,
}

impl LayerData {
    /// The space that the data of one layer takes in the buffer.
    pub open spec fn stride(&self) -> int {
        align_up(16, if self.min_alignment_size > 4 { self.min_alignment_size as int } else { 4 })
    }

    /// A zeroed buffer for `layers` layers.
    pub fn new(layers: usize, min_alignment_size: u32) -> (r: LayerData)
        requires
            align_up(16, if min_alignment_size > 4 { min_alignment_size as int } else { 4 }) * layers <= usize::MAX,
        ensures
            r.min_alignment_size == min_alignment_size,
            r.data@.len() == r.stride() * layers,
            forall|i: int| 0 <= i < r.data@.len() ==> r.data@[i] == 0,
    {
        let size = aligned_size_of(min_alignment_size) * layers;
        let mut data: Vec<u8> = Vec::new();
        while data.len() < size
            invariant
                data@.len() <= size,
                forall|i: int| 0 <= i < data@.len() ==> data@[i] == 0,
            decreases size - data@.len(),
        {
            data.push(0);
        }
        LayerData { data, min_alignment_size }
    }

    /// The bytes of the buffer that hold the data of the layer `layer`.
    pub fn range_of_layer(&self, layer: usize) -> (r: std::ops::Range<usize>)
        requires
            layer * self.stride() + 16 <= usize::MAX,
        ensures
            r.start == layer * self.stride(),
            r.end == r.start + 16,
    {
        let data_size = aligned_size_of(self.min_alignment_size);
        let start = layer * data_size;
        let end = start + LAYER_DATA_SIZE;
        start..end
    }

    /// The data of the layer `layer`.
    pub fn bytes_of_layer(&self, layer: usize) -> (r: &[u8])
        requires
            layer * self.stride() + 16 <= self.data@.len(),
        ensures
            r@ == self.data@.subrange(layer * self.stride(), layer * self.stride() + 16),
    {
        let _n = self.data.len();
        let range = self.range_of_layer(layer);
        &self.data.as_slice()[range]
    }

    /// Replaces the data of the layer `layer`.
    pub fn set_bytes_of_layer(&mut self, layer: usize, bytes: &[u8])
        requires
            layer * old(self).stride() + 16 <= old(self).data@.len(),
            bytes@.len() == 16,
        ensures
            final(self).min_alignment_size == old(self).min_alignment_size,
            final(self).data@ == old(self).data@.subrange(0, layer * old(self).stride()) + bytes@
                + old(self).data@.subrange(layer * old(self).stride() + 16, old(self).data@.len() as int),
    {
        let n = self.data.len();
        let range = self.range_of_layer(layer);
        let start = range.start;
        let mut i: usize = 0;
        while i < LAYER_DATA_SIZE
            invariant
                start == layer * old(self).stride(),
                start + 16 <= old(self).data@.len(),
                old(self).data@.len() == n,
                bytes@.len() == 16,
                i <= 16,
                self.min_alignment_size == old(self).min_alignment_size,
                self.data@.len() == old(self).data@.len(),
                forall|k: int| 0 <= k < self.data@.len() ==> #[trigger] self.data@[k] == (if start <= k < start + i {
                    bytes@[k - start]
                } else {
                    old(self).data@[k]
                }),
            decreases 16 - i,
        {
            self.data.set(start + i, bytes[i]);
            i += 1;
        }
        assert(self.data@ =~= old(self).data@.subrange(0, start as int) + bytes@
            + old(self).data@.subrange(start + 16, old(self).data@.len() as int));
    }
}

} // verus!
