//! The layout of the atlas of a battle animation: the animation sheet, five 192-pixel cells
//! wide, cut into columns no taller than the largest texture, placed side by side.
use vstd::prelude::*;

verus! {

/// The largest width or height of a texture.
pub const MAX_SIZE: u32 = 8192;
/// The width and height of a cell.
pub const CELL_SIZE: u32 = 192;
/// The number of cells in a row of an animation sheet.
pub const ANIMATION_COLUMNS: u32 = 5;
/// The width of an animation sheet.
pub const ANIMATION_WIDTH: u32 = 960;
/// The number of rows of cells that fit in one column of the atlas.
pub const MAX_ROWS: u32 = 42;
/// The height of the cells of one column of the atlas.
pub const MAX_HEIGHT: u32 = 8064;
/// The number of cells in one column of the atlas.
pub const MAX_CELLS: u32 = 210;

/// The height of the cells of an animation sheet of the given height: whole rows of cells, or one
/// row when there is no sheet.
pub fn animation_height_of(image_height: Option<u32>) -> (r: u32)
    ensures
        r == (match image_height {
            Some(h) => h / 192 * 192,
            None => 192,
        }),
{
    match image_height {
        Some(h) => h / CELL_SIZE * CELL_SIZE,
        None => CELL_SIZE,
    }
}

/// `a / b` rounded up.
pub open spec fn div_ceil(a: int, b: int) -> int {
    (a + b - 1) / b
}

/// The size of the atlas of an animation whose cells are `animation_height` tall.
#[derive(Clone, Copy, Debug, PartialEq, Eq, Structural)]
pub struct CellsLayout {
    pub wrap_columns: u32,
    pub width: u32,
    pub height: u32,
}

/// The number of columns is the height over the largest texture size, rounded up; each column is
/// an animation sheet wide; the height is that of the cells, but no more than the largest size.
pub open spec fn cells_layout_spec(animation_height: int) -> CellsLayout {
    let wrap = div_ceil(animation_height, 8192);
    CellsLayout {
        wrap_columns: wrap as u32,
        width: (wrap * 960) as u32,
        height: (if animation_height < 8192 { animation_height } else { 8192 }) as u32,
    }
}

/// The size of the atlas of an animation whose cells are `animation_height` tall.
pub fn cells_layout(animation_height: u32) -> (r: CellsLayout)
    ensures
        r == cells_layout_spec(animation_height as int),
{
    let wrap_columns = animation_height / MAX_SIZE + if animation_height % MAX_SIZE == 0 { 0 } else { 1 };
    assert(wrap_columns == div_ceil(animation_height as int, 8192)) by (nonlinear_arith)
        requires
            wrap_columns == animation_height / 8192 + if animation_height % 8192 == 0 { 0int } else { 1int },
    ;
    CellsLayout {
        wrap_columns,
        width: wrap_columns * ANIMATION_WIDTH,
        height: if animation_height < MAX_SIZE { animation_height } else { MAX_SIZE },
    }
}

/// A band of the animation sheet and where it goes in the atlas.
#[derive(Clone, Copy, Debug, PartialEq, Eq, Structural)]
pub struct CellRegion {
    pub src_y: u32,
    pub width: u32,
    pub height: u32,
    pub dst_x: u32,
}

/// The band that goes into column `i` of `wrap` columns: the sheet's width, at most an animation
/// sheet wide; the height of a full column, or what is left of the cells for the last one.
pub open spec fn cell_region_spec(animation_height: int, image_width: int, wrap: int, i: int) -> CellRegion {
    CellRegion {
        src_y: (8064 * i) as u32,
        width: (if image_width < 960 { image_width } else { 960 }) as u32,
        height: (if i == wrap - 1 { animation_height - 8064 * i } else { 8064 }) as u32,
        dst_x: (960 * i) as u32,
    }
}

/// The bands of the animation sheet and where each goes in the atlas, one per column.
pub fn cell_regions(animation_height: u32, image_width: u32) -> (r: Vec<CellRegion>)
    ensures
        r@.len() == cells_layout_spec(animation_height as int).wrap_columns,
        forall|i: int| 0 <= i < r@.len() ==> #[trigger] r@[i] == cell_region_spec(
            animation_height as int,
            image_width as int,
            r@.len() as int,
            i,
        ),
{
    let layout = cells_layout(animation_height);
    let wrap = layout.wrap_columns;
    let mut out: Vec<CellRegion> = Vec::new();
    let mut i: u32 = 0;
    while i < wrap
        invariant
            wrap == div_ceil(animation_height as int, 8192),
            i <= wrap,
            out@.len() == i,
            forall|k: int| 0 <= k < i ==> #[trigger] out@[k] == cell_region_spec(
                animation_height as int,
                image_width as int,
                wrap as int,
                k,
            ),
        decreases wrap - i,
    {
        assert(8064 * i < animation_height as int) by (nonlinear_arith)
            requires
                i < wrap,
                wrap == (animation_height + 8191) / 8192,
        ;
        let region_height = if i == wrap - 1 { animation_height - MAX_HEIGHT * i } else { MAX_HEIGHT };
        out.push(CellRegion {
            src_y: MAX_HEIGHT * i,
            width: if image_width < ANIMATION_WIDTH { image_width } else { ANIMATION_WIDTH },
            height: region_height,
            dst_x: ANIMATION_WIDTH * i,
        });
        i += 1;
    }
    out
}

/// Where the cell `cell` lies in the atlas, in pixels: negative cells are the first one.
pub open spec fn cell_position_spec(cell: i16) -> (u32, u32) {
    let c: int = if cell < 0 { 0 } else { cell as int };
    (((c % 5 + c / 210 * 5) * 192) as u32, ((c / 5 % 42) * 192) as u32)
}

/// The position in the atlas, in pixels, of the top left corner of the cell `cell`.
pub fn cell_position(cell: i16) -> (r: (u32, u32))
    ensures
        r == cell_position_spec(cell),
{
    let c: u32 = if cell < 0 { 0 } else { cell as u32 };
    ((c % ANIMATION_COLUMNS + (c / MAX_CELLS) * ANIMATION_COLUMNS) * CELL_SIZE, c / ANIMATION_COLUMNS % MAX_ROWS * CELL_SIZE)
}

/// The number of cells of an animation whose cells are `animation_height` tall.
pub fn num_patterns(animation_height: u32) -> (r: u32)
    ensures
        r == animation_height / 192 * 5,
{
    animation_height / CELL_SIZE * ANIMATION_COLUMNS
}

} // verus!
