//! Which directions a map position can be left in: the passage values of the tiles and events
//! on each position, combined layer by layer.
use vstd::prelude::*;

verus! {

/// What a layer of a map position holds.
#[derive(Clone, Copy, Debug, PartialEq, Eq, Structural)]
pub enum CollisionType {
    /// An event
    Event,
    /// A tile whose ID is less than 48 (i.e. a blank autotile)
    BlankTile,
    /// A tile whose ID is greater than or equal to 48
    Tile,
}

/// Whether the bit `d` of the passage is set when the layers from `i` on are scanned from top to
/// bottom, `seen` telling whether a tile that counts was met above: a blank tile counts only when
/// it is the last layer and no tile counted above it; the first layer that counts and has the bit
/// set sets it, and the first one with priority 0 that does not have it stops the scan.
pub open spec fn sets_direction(layers: Seq<(i16, i16, CollisionType)>, i: int, d: i16, seen: bool) -> bool
    decreases layers.len() - i,
{
    if i < 0 || i >= layers.len() {
        false
    } else {
        let passage = layers[i].0;
        let priority = layers[i].1;
        let kind = layers[i].2;
        if kind == CollisionType::BlankTile && (seen || i + 1 < layers.len()) {
            sets_direction(layers, i + 1, d, seen)
        } else if passage & d != 0 {
            true
        } else if priority == 0 {
            false
        } else {
            sets_direction(layers, i + 1, d, seen || kind != CollisionType::Event)
        }
    }
}

/// The passage value of a map position: bit 1, 2, 4 and 8 each set as `sets_direction` says.
pub open spec fn passage_spec(layers: Seq<(i16, i16, CollisionType)>) -> i16 {
    ((if sets_direction(layers, 0, 1, false) { 1int } else { 0 }) + (if sets_direction(layers, 0, 2, false) {
        2int
    } else {
        0
    }) + (if sets_direction(layers, 0, 4, false) { 4int } else { 0 }) + (if sets_direction(layers, 0, 8, false) {
        8int
    } else {
        0
    })) as i16
}

/// Whether the layers, scanned from the top, set the bit `d` of the passage.
fn direction_set(layers: &[(i16, i16, CollisionType)], d: i16) -> (r: bool)
    ensures
        r == sets_direction(layers@, 0, d, false),
{
    let mut seen = false;
    let mut i: usize = 0;
    while i < layers.len()
        invariant
            i <= layers@.len(),
            sets_direction(layers@, 0, d, false) == sets_direction(layers@, i as int, d, seen),
        decreases layers@.len() - i,
    {
        let (passage, priority, kind) = layers[i];
        if kind == CollisionType::BlankTile && (seen || i + 1 < layers.len()) {
            i += 1;
            continue;
        }
        if kind != CollisionType::Event {
            seen = true;
        }
        if passage & d != 0 {
            return true;
        } else if priority == 0 {
            return false;
        }
        i += 1;
    }
    false
}

/// Determines the passage value for a position on the map given the
/// `(passage, priority, collision_type)` values for the tiles in each layer on that position,
/// from the top layer to the bottom one.
pub fn calculate_passage(layers: &[(i16, i16, CollisionType)]) -> (r: i16)
    ensures
        r == passage_spec(layers@),
{
    let mut computed: i16 = 0;
    if direction_set(layers, 1) {
        assert(0i16 | 1i16 == 1i16) by (bit_vector);
        computed = computed | 1;
    }
    assert(0 <= computed < 2);
    if direction_set(layers, 2) {
        let c = computed;
        assert(c | 2 == c + 2) by (bit_vector)
            requires
                0 <= c < 2,
        ;
        computed = computed | 2;
    }
    assert(0 <= computed < 4);
    if direction_set(layers, 4) {
        let c = computed;
        assert(c | 4 == c + 4) by (bit_vector)
            requires
                0 <= c < 4,
        ;
        computed = computed | 4;
    }
    assert(0 <= computed < 8);
    if direction_set(layers, 8) {
        let c = computed;
        assert(c | 8 == c + 8) by (bit_vector)
            requires
                0 <= c < 8,
        ;
        computed = computed | 8;
    }
    computed
}

/// Scanning from `i` on with a tile already met, or with one still to come, a blank tile added
/// below the last layer changes nothing.
proof fn lemma_sets_blank_below(
    layers: Seq<(i16, i16, CollisionType)>,
    blank: (i16, i16, CollisionType),
    i: int,
    d: i16,
    seen: bool,
)
    requires
        blank.2 == CollisionType::BlankTile,
        0 <= i <= layers.len(),
        seen || exists|j: int| i <= j < layers.len() && #[trigger] layers[j].2 == CollisionType::Tile,
    ensures
        sets_direction(layers.push(blank), i, d, seen) == sets_direction(layers, i, d, seen),
    decreases layers.len() - i,
{
    let longer = layers.push(blank);
    if i == layers.len() {
        assert(longer[i] == blank);
        assert(sets_direction(longer, i + 1, d, seen) == false);
    } else {
        assert(longer[i] == layers[i]);
        let kind = layers[i].2;
        if kind == CollisionType::BlankTile {
            if !seen {
                let j = choose|j: int| i <= j < layers.len() && #[trigger] layers[j].2 == CollisionType::Tile;
                assert(j != i);
                assert(layers[j].2 == CollisionType::Tile);
            }
            lemma_sets_blank_below(layers, blank, i + 1, d, seen);
        } else if layers[i].0 & d != 0 {
        } else if layers[i].1 == 0 {
        } else {
            let seen2 = seen || kind != CollisionType::Event;
            if !seen2 {
                let j = choose|j: int| i <= j < layers.len() && #[trigger] layers[j].2 == CollisionType::Tile;
                assert(j != i);
                assert(i + 1 <= j < layers.len() && layers[j].2 == CollisionType::Tile);
            }
            lemma_sets_blank_below(layers, blank, i + 1, d, seen2);
        }
    }
}

/// A blank autotile below a layer holding a tile never adds a direction: once the scan has met a
/// tile, a blank tile in the last layer is skipped like any other blank tile, so adding one under
/// layers that hold a tile leaves their passage as it was.
pub proof fn lemma_blank_below_tile_ignored(
    layers: Seq<(i16, i16, CollisionType)>,
    passage: i16,
    priority: i16,
    k: int,
)
    requires
        0 <= k < layers.len(),
        layers[k].2 == CollisionType::Tile,
    ensures
        passage_spec(layers.push((passage, priority, CollisionType::BlankTile))) == passage_spec(
            layers,
        ),
{
    let blank = (passage, priority, CollisionType::BlankTile);
    assert(layers[k].2 == CollisionType::Tile);
    lemma_sets_blank_below(layers, blank, 0, 1, false);
    lemma_sets_blank_below(layers, blank, 0, 2, false);
    lemma_sets_blank_below(layers, blank, 0, 4, false);
    lemma_sets_blank_below(layers, blank, 0, 8, false);
}

/// A position with a single layer, whatever it holds, can be left in exactly the directions
/// that layer's passage value has: its passage is the low four bits of that value.
pub proof fn lemma_single_layer_passage(passage: i16, priority: i16, kind: CollisionType)
    ensures
        passage_spec(seq![(passage, priority, kind)]) == passage & 15,
{
    let l = seq![(passage, priority, kind)];
    assert(sets_direction(l, 1, 1, kind != CollisionType::Event) == false);
    assert(sets_direction(l, 1, 2, kind != CollisionType::Event) == false);
    assert(sets_direction(l, 1, 4, kind != CollisionType::Event) == false);
    assert(sets_direction(l, 1, 8, kind != CollisionType::Event) == false);
    lemma_passage_bits(l, passage);
}

/// Scanning a position with one more layer on top, from the layer below it, is scanning the
/// position without it.
proof fn lemma_sets_shift(
    top: (i16, i16, CollisionType),
    rest: Seq<(i16, i16, CollisionType)>,
    i: int,
    d: i16,
    seen: bool,
)
    requires
        0 <= i,
    ensures
        sets_direction(seq![top] + rest, i + 1, d, seen) == sets_direction(rest, i, d, seen),
    decreases rest.len() - i,
{
    let l = seq![top] + rest;
    if i < rest.len() {
        assert(l[i + 1] == rest[i]);
        lemma_sets_shift(top, rest, i + 1, d, seen);
        lemma_sets_shift(top, rest, i + 1, d, seen || rest[i].2 != CollisionType::Event);
    }
}

/// The passage value built from four direction bits.
proof fn lemma_passage_bits(layers: Seq<(i16, i16, CollisionType)>, p: i16)
    requires
        sets_direction(layers, 0, 1, false) == (p & 1 != 0),
        sets_direction(layers, 0, 2, false) == (p & 2 != 0),
        sets_direction(layers, 0, 4, false) == (p & 4 != 0),
        sets_direction(layers, 0, 8, false) == (p & 8 != 0),
    ensures
        passage_spec(layers) == p & 15,
{
    let v1: i16 = if p & 1 != 0 { 1 } else { 0 };
    let v2: i16 = if p & 2 != 0 { 2 } else { 0 };
    let v4: i16 = if p & 4 != 0 { 4 } else { 0 };
    let v8: i16 = if p & 8 != 0 { 8 } else { 0 };
    assert(v1 + v2 + v4 + v8 == p & 15) by (bit_vector)
        requires
            v1 == (if p & 1 != 0 { 1i16 } else { 0i16 }),
            v2 == (if p & 2 != 0 { 2i16 } else { 0i16 }),
            v4 == (if p & 4 != 0 { 4i16 } else { 0i16 }),
            v8 == (if p & 8 != 0 { 8i16 } else { 0i16 }),
    ;
}

/// The bits of a passage value are the directions it opens.
proof fn lemma_passage_has_bits(layers: Seq<(i16, i16, CollisionType)>)
    ensures
        sets_direction(layers, 0, 1, false) == (passage_spec(layers) & 1 != 0),
        sets_direction(layers, 0, 2, false) == (passage_spec(layers) & 2 != 0),
        sets_direction(layers, 0, 4, false) == (passage_spec(layers) & 4 != 0),
        sets_direction(layers, 0, 8, false) == (passage_spec(layers) & 8 != 0),
{
    let s1 = sets_direction(layers, 0, 1, false);
    let s2 = sets_direction(layers, 0, 2, false);
    let s4 = sets_direction(layers, 0, 4, false);
    let s8 = sets_direction(layers, 0, 8, false);
    let p = passage_spec(layers);
    let v1: i16 = if s1 { 1 } else { 0 };
    let v2: i16 = if s2 { 2 } else { 0 };
    let v4: i16 = if s4 { 4 } else { 0 };
    let v8: i16 = if s8 { 8 } else { 0 };
    assert(p == v1 + v2 + v4 + v8);
    assert((p & 1 != 0) == s1 && (p & 2 != 0) == s2 && (p & 4 != 0) == s4 && (p & 8 != 0) == s8)
        by (bit_vector)
        requires
            v1 == (if s1 { 1i16 } else { 0i16 }),
            v2 == (if s2 { 2i16 } else { 0i16 }),
            v4 == (if s4 { 4i16 } else { 0i16 }),
            v8 == (if s8 { 8i16 } else { 0i16 }),
            p == v1 + v2 + v4 + v8,
    ;
}

/// A top layer with priority 0 that is not a blank tile decides the position alone: the
/// directions it does not open are closed whatever lies below.
pub proof fn lemma_priority_zero_top_decides(
    passage: i16,
    kind: CollisionType,
    rest: Seq<(i16, i16, CollisionType)>,
)
    requires
        kind != CollisionType::BlankTile,
    ensures
        passage_spec(seq![(passage, 0i16, kind)] + rest) == passage & 15,
{
    let l = seq![(passage, 0i16, kind)] + rest;
    assert(l[0] == (passage, 0i16, kind));
    lemma_passage_bits(l, passage);
}

/// An event with a priority other than 0 on top of a position adds the directions it opens to
/// those the layers below open.
pub proof fn lemma_event_above_adds(passage: i16, priority: i16, rest: Seq<(i16, i16, CollisionType)>)
    requires
        priority != 0,
    ensures
        passage_spec(seq![(passage, priority, CollisionType::Event)] + rest) == (passage | passage_spec(rest))
            & 15,
{
    let l = seq![(passage, priority, CollisionType::Event)] + rest;
    assert(l[0] == (passage, priority, CollisionType::Event));
    lemma_sets_shift((passage, priority, CollisionType::Event), rest, 0, 1, false);
    lemma_sets_shift((passage, priority, CollisionType::Event), rest, 0, 2, false);
    lemma_sets_shift((passage, priority, CollisionType::Event), rest, 0, 4, false);
    lemma_sets_shift((passage, priority, CollisionType::Event), rest, 0, 8, false);
    lemma_passage_has_bits(rest);
    let q = passage_spec(rest);
    let p = passage | q;
    assert((p & 1 != 0) == (passage & 1 != 0 || q & 1 != 0) && (p & 2 != 0) == (passage & 2 != 0
        || q & 2 != 0) && (p & 4 != 0) == (passage & 4 != 0 || q & 4 != 0) && (p & 8 != 0) == (
    passage & 8 != 0 || q & 8 != 0)) by (bit_vector)
        requires
            p == passage | q,
    ;
    lemma_passage_bits(l, p);
}

/// A blank tile above other layers is skipped: the position is left in the directions the
/// layers below it allow.
pub proof fn lemma_blank_above_skipped(passage: i16, priority: i16, rest: Seq<(i16, i16, CollisionType)>)
    requires
        rest.len() > 0,
    ensures
        passage_spec(seq![(passage, priority, CollisionType::BlankTile)] + rest) == passage_spec(rest),
{
    let top = (passage, priority, CollisionType::BlankTile);
    let l = seq![top] + rest;
    assert(l[0] == top);
    lemma_sets_shift(top, rest, 0, 1, false);
    lemma_sets_shift(top, rest, 0, 2, false);
    lemma_sets_shift(top, rest, 0, 4, false);
    lemma_sets_shift(top, rest, 0, 8, false);
}

/// A three-dimensional table of tile ids, stored x first, then y, then z.
#[derive(Clone, Debug)]
pub struct Table3 {
    pub xsize: usize,
    pub ysize: usize,
    pub zsize: usize,
    pub data: Vec<i16>,
}

impl Table3 {
    /// Every position of the table has its value.
    pub open spec fn wf(&self) -> bool {
        self.data@.len() == self.xsize * self.ysize * self.zsize
    }

    /// The value at a position.
    pub open spec fn at(&self, x: int, y: int, z: int) -> i16 {
        self.data@[x + y * self.xsize + z * self.xsize * self.ysize]
    }
}

/// The first page of an event, as far as collision goes.
#[derive(Clone, Copy, Debug, PartialEq, Eq, Structural)]
pub struct EventPage {
    /// Whether the event lets the player walk through it.
    pub through: bool,
    /// The tile the page shows, if it shows one.
    pub tile_id: Option<usize>,
}

/// An event, as far as collision goes: where it stands and its first page, if it has one.
#[derive(Clone, Copy, Debug, PartialEq, Eq, Structural)]
pub struct EventTile {
    pub x: i32,
    pub y: i32,
    pub first_page: Option<EventPage>,
}

/// The layer an event adds on top of its position, if any: none without a first page or when
/// the page lets the player through; else the passage and priority of the tile it shows (those of
/// tile `id + 1`, or none past the tileset), or passage 15 with priority 1 when it shows no tile.
pub open spec fn event_layer(e: EventTile, passages: Seq<i16>, priorities: Seq<i16>, tileset_size: int) -> Option<
    (i16, i16, CollisionType),
> {
    match e.first_page {
        None => None,
        Some(page) => if page.through {
            None
        } else {
            Some(
                match page.tile_id {
                    None => (15i16, 1i16, CollisionType::Event),
                    Some(id) => if id + 1 >= tileset_size {
                        (0i16, 0i16, CollisionType::Event)
                    } else {
                        (passages[id + 1], priorities[id + 1], CollisionType::Event)
                    },
                },
            )
        },
    }
}

/// The layer of the last event standing at `(x, y)` that adds one.
pub open spec fn event_at(
    events: Seq<EventTile>,
    passages: Seq<i16>,
    priorities: Seq<i16>,
    tileset_size: int,
    x: int,
    y: int,
) -> Option<(i16, i16, CollisionType)>
    decreases events.len(),
{
    if events.len() == 0 {
        None
    } else {
        let e = events.last();
        if e.x as usize == x && e.y as usize == y && event_layer(e, passages, priorities, tileset_size) is Some {
            event_layer(e, passages, priorities, tileset_size)
        } else {
            event_at(events.drop_last(), passages, priorities, tileset_size, x, y)
        }
    }
}

/// The layer the tile at `(x, y, z)` adds: a negative id counts as 0, ids below 48 are blank
/// autotiles, and ids past the tileset have passage and priority 0.
pub open spec fn tile_layer(
    tiles: Table3,
    passages: Seq<i16>,
    priorities: Seq<i16>,
    tileset_size: int,
    x: int,
    y: int,
    z: int,
) -> (i16, i16, CollisionType) {
    let raw = tiles.at(x, y, z);
    let id: int = if raw < 0 { 0 } else { raw as int };
    let kind = if id < 48 { CollisionType::BlankTile } else { CollisionType::Tile };
    if id >= tileset_size {
        (0i16, 0i16, kind)
    } else {
        (passages[id], priorities[id], kind)
    }
}

/// The layers of the position `(x, y)` from the top: the event standing there, if any, then the
/// tiles of the given layers in order.
pub open spec fn position_layers(
    tiles: Table3,
    events: Seq<EventTile>,
    passages: Seq<i16>,
    priorities: Seq<i16>,
    layers: Seq<usize>,
    x: int,
    y: int,
) -> Seq<(i16, i16, CollisionType)> {
    let size = if passages.len() < priorities.len() { passages.len() as int } else { priorities.len() as int };
    (match event_at(events, passages, priorities, size, x, y) {
        Some(l) => seq![l],
        None => seq![],
    }) + Seq::new(layers.len(), |k: int| tile_layer(tiles, passages, priorities, size, x, y, layers[k] as int))
}

/// The value a row-major list of a map's positions holds for `(x, y)`.
pub open spec fn cell(out: Seq<i16>, xsize: int, x: int, y: int) -> i16 {
    out[y * xsize + x]
}

/// The layer of the last event standing at `(x, y)` that adds one.
fn find_event_layer(
    events: &Vec<EventTile>,
    passages: &Vec<i16>,
    priorities: &Vec<i16>,
    tileset_size: usize,
    x: usize,
    y: usize,
) -> (r: Option<(i16, i16, CollisionType)>)
    requires
        tileset_size <= passages@.len(),
        tileset_size <= priorities@.len(),
    ensures
        r == event_at(events@, passages@, priorities@, tileset_size as int, x as int, y as int),
{
    let mut k = events.len();
    assert(events@.take(k as int) =~= events@);
    while k > 0
        invariant
            k <= events@.len(),
            tileset_size <= passages@.len(),
            tileset_size <= priorities@.len(),
            event_at(events@, passages@, priorities@, tileset_size as int, x as int, y as int)
                == event_at(events@.take(k as int), passages@, priorities@, tileset_size as int, x as int, y as int),
        decreases k,
    {
        let e = events[k - 1];
        assert(events@.take(k as int).last() == e);
        assert(events@.take(k as int).drop_last() =~= events@.take(k - 1));
        let layer = match e.first_page {
            None => None,
            Some(page) => if page.through {
                None
            } else {
                Some(
                    match page.tile_id {
                        None => (15i16, 1i16, CollisionType::Event),
                        Some(id) => if id >= tileset_size || id + 1 >= tileset_size {
                            (0i16, 0i16, CollisionType::Event)
                        } else {
                            (passages[id + 1], priorities[id + 1], CollisionType::Event)
                        },
                    },
                )
            },
        };
        assert(layer == event_layer(e, passages@, priorities@, tileset_size as int));
        let ex = #[verifier::truncate] (e.x as usize);
        let ey = #[verifier::truncate] (e.y as usize);
        if ex == x && ey == y && layer.is_some() {
            return layer;
        }
        k -= 1;
    }
    assert(events@.take(0) =~= seq![]);
    None
}

/// Where the value at `(x, y, z)` is stored: within the table, and so is every partial sum of
/// its index.
proof fn lemma_table_index(xs: int, ys: int, zs: int, x: int, y: int, z: int)
    requires
        0 <= x < xs,
        0 <= y < ys,
        0 <= z < zs,
    ensures
        0 <= x + y * xs + z * xs * ys < xs * ys * zs,
        0 <= y * xs <= x + y * xs + z * xs * ys,
        0 <= z * xs <= z * xs * ys <= x + y * xs + z * xs * ys,
{
    assert(0 <= x + y * xs + z * xs * ys < xs * ys * zs) by (nonlinear_arith)
        requires
            0 <= x < xs,
            0 <= y < ys,
            0 <= z < zs,
    ;
    assert(0 <= y * xs && 0 <= z * xs <= z * xs * ys) by (nonlinear_arith)
        requires
            0 <= x < xs,
            0 <= y < ys,
            0 <= z < zs,
    ;
}

/// Determines the passage value for every position on the map, in rows from the top, each from
/// the left. `layers` holds the enabled layer numbers of the map from top to bottom.
pub fn calculate_passages(
    passages: &Vec<i16>,
    priorities: &Vec<i16>,
    tiles: &Table3,
    events: &Vec<EventTile>,
    layers: &Vec<usize>,
) -> (r: Vec<i16>)
    requires
        tiles.wf(),
        forall|k: int| 0 <= k < layers@.len() ==> #[trigger] layers@[k] < tiles.zsize,
    ensures
        r@.len() == tiles.xsize * tiles.ysize,
        forall|x: int, y: int|
            0 <= x < tiles.xsize && 0 <= y < tiles.ysize ==> #[trigger] cell(r@, tiles.xsize as int, x, y)
                == passage_spec(position_layers(*tiles, events@, passages@, priorities@, layers@, x, y)),
{
    let tileset_size = if passages.len() < priorities.len() { passages.len() } else { priorities.len() };
    let xs = tiles.xsize;
    let ys = tiles.ysize;
    let n = tiles.data.len();
    assert(n == tiles.data@.len());
    let mut out: Vec<i16> = Vec::new();
    let mut y: usize = 0;
    while y < ys
        invariant
            tiles.wf(),
            tiles.data@.len() <= usize::MAX,
            xs == tiles.xsize,
            ys == tiles.ysize,
            tileset_size as int == (if passages@.len() < priorities@.len() { passages@.len() as int } else { priorities@.len() as int }),
            forall|k: int| 0 <= k < layers@.len() ==> #[trigger] layers@[k] < tiles.zsize,
            y <= ys,
            out@.len() == y * xs,
            forall|xx: int, yy: int|
                0 <= xx < xs && 0 <= yy < y ==> #[trigger] cell(out@, xs as int, xx, yy)
                    == passage_spec(position_layers(*tiles, events@, passages@, priorities@, layers@, xx, yy)),
        decreases ys - y,
    {
        let mut x: usize = 0;
        while x < xs
            invariant
                tiles.wf(),
                tiles.data@.len() <= usize::MAX,
                xs == tiles.xsize,
                ys == tiles.ysize,
                tileset_size as int == (if passages@.len() < priorities@.len() { passages@.len() as int } else { priorities@.len() as int }),
                forall|k: int| 0 <= k < layers@.len() ==> #[trigger] layers@[k] < tiles.zsize,
                y < ys,
                x <= xs,
                out@.len() == y * xs + x,
                forall|xx: int, yy: int|
                    0 <= xx < xs && 0 <= yy < y ==> #[trigger] cell(out@, xs as int, xx, yy)
                        == passage_spec(position_layers(*tiles, events@, passages@, priorities@, layers@, xx, yy)),
                forall|xx: int|
                    0 <= xx < x ==> #[trigger] cell(out@, xs as int, xx, y as int)
                        == passage_spec(position_layers(*tiles, events@, passages@, priorities@, layers@, xx, y as int)),
            decreases xs - x,
        {
            let ghost want = position_layers(*tiles, events@, passages@, priorities@, layers@, x as int, y as int);
            let mut here: Vec<(i16, i16, CollisionType)> = Vec::new();
            match find_event_layer(events, passages, priorities, tileset_size, x, y) {
                Some(l) => here.push(l),
                None => {},
            }
            let ghost top = here@;
            let mut k: usize = 0;
            while k < layers.len()
                invariant
                    tiles.wf(),
                    xs == tiles.xsize,
                    ys == tiles.ysize,
                    x < xs,
                    y < ys,
                    tileset_size <= passages@.len(),
                    tileset_size <= priorities@.len(),
                    tiles.data@.len() <= usize::MAX,
                    forall|j: int| 0 <= j < layers@.len() ==> #[trigger] layers@[j] < tiles.zsize,
                    k <= layers@.len(),
                    here@ == top + Seq::new(k as nat, |j: int| tile_layer(*tiles, passages@, priorities@, tileset_size as int, x as int, y as int, layers@[j] as int)),
                decreases layers@.len() - k,
            {
                let z = layers[k];
                proof {
                    lemma_table_index(xs as int, ys as int, tiles.zsize as int, x as int, y as int, z as int);
                }
                let row = y * xs;
                let plane = z * xs * ys;
                let raw = tiles.data[x + row + plane];
                let id: usize = if raw < 0 { 0 } else { raw as usize };
                let kind = if id < 48 { CollisionType::BlankTile } else { CollisionType::Tile };
                let layer = if id >= tileset_size {
                    (0i16, 0i16, kind)
                } else {
                    (passages[id], priorities[id], kind)
                };
                here.push(layer);
                assert(here@ =~= top + Seq::new((k + 1) as nat, |j: int| tile_layer(*tiles, passages@, priorities@, tileset_size as int, x as int, y as int, layers@[j] as int)));
                k += 1;
            }
            assert(here@ =~= want);
            let p = calculate_passage(here.as_slice());
            let ghost before = out@;
            out.push(p);
            proof {
                assert(cell(out@, xs as int, x as int, y as int) == p);
                assert forall|xx: int, yy: int| 0 <= xx < xs && 0 <= yy < y implies #[trigger] cell(out@, xs as int, xx, yy)
                    == passage_spec(position_layers(*tiles, events@, passages@, priorities@, layers@, xx, yy)) by {
                    assert(0 <= yy * xs + xx < y * xs) by (nonlinear_arith)
                        requires
                            0 <= xx < xs,
                            0 <= yy < y,
                    ;
                    assert(cell(out@, xs as int, xx, yy) == cell(before, xs as int, xx, yy));
                }
                assert forall|xx: int| 0 <= xx < x + 1 implies #[trigger] cell(out@, xs as int, xx, y as int)
                    == passage_spec(position_layers(*tiles, events@, passages@, priorities@, layers@, xx, y as int)) by {
                    if xx < x {
                        assert(0 <= y * xs + xx < y * xs + x) by (nonlinear_arith)
                            requires
                                0 <= xx < x,
                                0 <= y,
                                0 <= xs,
                        ;
                        assert(cell(out@, xs as int, xx, y as int) == cell(before, xs as int, xx, y as int));
                    }
                }
            }
            x += 1;
        }
        proof {
            assert((y + 1) * xs == y * xs + xs) by (nonlinear_arith);
            assert forall|xx: int, yy: int| 0 <= xx < xs && 0 <= yy < y + 1 implies #[trigger] cell(out@, xs as int, xx, yy)
                == passage_spec(position_layers(*tiles, events@, passages@, priorities@, layers@, xx, yy)) by {
                if yy == y {
                } else {
                }
            }
        }
        y += 1;
    }
    assert(ys * xs == xs * ys) by (nonlinear_arith);
    out
}

/// The map position of each of `count` passage values stored row by row: the x is reset every
/// `xsize` values, the y every `ysize` rows.
pub fn instance_positions(count: usize, xsize: usize, ysize: usize) -> (r: Vec<(usize, usize)>)
    requires
        xsize > 0,
        ysize > 0,
    ensures
        r@.len() == count,
        forall|i: int| 0 <= i < count ==> #[trigger] r@[i] == ((i % xsize as int) as usize, ((i / xsize as int) % ysize as int) as usize),
{
    let mut out: Vec<(usize, usize)> = Vec::new();
    let mut i: usize = 0;
    while i < count
        invariant
            xsize > 0,
            ysize > 0,
            i <= count,
            out@.len() == i,
            forall|j: int| 0 <= j < i ==> #[trigger] out@[j] == ((j % xsize as int) as usize, ((j / xsize as int) % ysize as int) as usize),
        decreases count - i,
    {
        out.push((i % xsize, (i / xsize) % ysize));
        i += 1;
    }
    out
}

/// Where the passage value of the position `(x, y)` is stored when a row holds `width` values.
pub fn passage_offset(x: usize, y: usize, width: usize) -> (r: usize)
    requires
        x + y * width <= usize::MAX,
    ensures
        r == x + y * width,
{
    assert(0 <= y * width <= x + y * width) by (nonlinear_arith)
        requires
            x + y * width <= usize::MAX,
            0 <= x,
            0 <= y,
            0 <= width,
    ;
    x + y * width
}

} // verus!
