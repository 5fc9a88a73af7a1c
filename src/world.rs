use vstd::prelude::*;
use vstd::arithmetic::div_mod::lemma_fundamental_div_mod;
use crate::vec2i::Vec2i;
use crate::tiles::{
    FlatTileMap, TileMap, TileSet, TileInfo, in_bounds, wrap_axis, coord, names_entry,
    lemma_wrap_in_range_idempotent,
};

verus! {

/// Ratio between the side lengths of adjacent layers in the default world.
pub const LAYER_FACTOR: i32 = 2;

/// Number of layers in the default world.
pub const NUM_LAYERS: usize = 6;

/// Focus sub-units per cell of the last (largest) layer.
pub const FOCUS_SUBDIVISION: i64 = 2;

/// `b` raised to the power `e`.
pub open spec fn power(b: int, e: nat) -> int
    decreases e,
{
    if e == 0 {
        1
    } else {
        b * power(b, (e - 1) as nat)
    }
}

pub proof fn lemma_power_positive(b: int, e: nat)
    requires
        b >= 1,
    ensures
        power(b, e) >= 1,
    decreases e,
{
    if e > 0 {
        lemma_power_positive(b, (e - 1) as nat);
        assert(b * power(b, (e - 1) as nat) >= 1) by (nonlinear_arith)
            requires
                b >= 1,
                power(b, (e - 1) as nat) >= 1,
        ;
    }
}

pub proof fn lemma_power_monotone(b: int, e1: nat, e2: nat)
    requires
        b >= 1,
        e1 <= e2,
    ensures
        power(b, e1) <= power(b, e2),
    decreases e2,
{
    if e1 < e2 {
        lemma_power_monotone(b, e1, (e2 - 1) as nat);
        lemma_power_positive(b, (e2 - 1) as nat);
        let p = power(b, (e2 - 1) as nat);
        assert(b * p >= p) by (nonlinear_arith)
            requires
                b >= 1,
                p >= 1,
        ;
    }
}

pub proof fn lemma_power_adds(b: int, e1: nat, e2: nat)
    ensures
        power(b, e1) * power(b, e2) == power(b, e1 + e2),
    decreases e1,
{
    if e1 > 0 {
        lemma_power_adds(b, (e1 - 1) as nat, e2);
        assert((e1 - 1) as nat + e2 == (e1 + e2 - 1) as nat);
        let p = power(b, (e1 - 1) as nat);
        let q = power(b, e2);
        assert(b * p * q == b * (p * q)) by (nonlinear_arith);
    }
}

pub proof fn lemma_power_exceeds_exponent(b: int, e: nat)
    requires
        b >= 2,
    ensures
        power(b, e) > e,
    decreases e,
{
    if e > 0 {
        lemma_power_exceeds_exponent(b, (e - 1) as nat);
        let p = power(b, (e - 1) as nat);
        assert(b * p >= 2 * p) by (nonlinear_arith)
            requires
                b >= 2,
                p >= 0,
        ;
    }
}

/// Exec power, for results that fit.
fn power_i64(b: i64, e: u32) -> (r: i64)
    requires
        b >= 1,
        power(b as int, e as nat) <= i64::MAX,
    ensures
        r == power(b as int, e as nat),
{
    let mut r: i64 = 1;
    let mut i: u32 = 0;
    proof {
        lemma_power_positive(b as int, 0);
    }
    while i < e
        invariant
            b >= 1,
            i <= e,
            r == power(b as int, i as nat),
            r >= 1,
            power(b as int, e as nat) <= i64::MAX,
        decreases e - i,
    {
        proof {
            lemma_power_monotone(b as int, (i + 1) as nat, e as nat);
            assert(power(b as int, (i + 1) as nat) == b * power(b as int, i as nat));
            assert(r * b == b * r) by (nonlinear_arith);
            assert(power(b as int, (i + 1) as nat) <= power(b as int, e as nat));
            assert(r * b <= i64::MAX);
            assert(r * b >= 1) by (nonlinear_arith)
                requires
                    r >= 1,
                    b >= 1,
            ;
        }
        r = r * b;
        i = i + 1;
        proof {
            lemma_power_positive(b as int, i as nat);
        }
    }
    r
}

/// The position, within the enumeration of one `f` by `f` block, of entry `k`:
/// column by column, each column walked in the opposite direction to the one
/// before (for `f == 2`: `(0,0)`, `(0,1)`, `(1,1)`, `(1,0)`).
pub open spec fn block_offset(f: int, k: int) -> (int, int) {
    let dx = k / f;
    let r = k % f;
    (dx, if dx % 2 == 0 { r } else { f - 1 - r })
}

/// A stack of toroidal tile grids, layer `i` being `F^(i+2)` cells on a side,
/// with a focus point on the active layer.
///
/// The focus is held as an absolute position in sub-units that do not depend
/// on the layer: the whole torus is `2 * F^(L+1)` sub-units on a side, and one
/// cell of layer `i` is `2 * F^(L-1-i)` of them. Changing layer therefore
/// rescales the focus, in cells of the new layer, by exactly `F^dir`.
pub struct World {
    layers: Vec<FlatTileMap>,
    tile_set: TileSet,
    factor: i32,
    focus_x: i64,
    focus_y: i64,
    player_layer: usize,
}

impl World {
    pub closed spec fn layer_count_spec(&self) -> int {
        self.layers@.len() as int
    }

    /// The tile catalog.
    pub closed spec fn catalog(&self) -> TileSet {
        self.tile_set
    }

    pub closed spec fn factor_spec(&self) -> int {
        self.factor as int
    }

    /// The active layer.
    pub closed spec fn active(&self) -> int {
        self.player_layer as int
    }

    /// The focus, in sub-units.
    pub closed spec fn focus(&self) -> (int, int) {
        (self.focus_x as int, self.focus_y as int)
    }

    /// The cells of layer `i`.
    pub closed spec fn layer_tiles(&self, i: int) -> Map<(int, int), u8> {
        self.layers@[i].tiles()
    }

    /// Side length of layer `i`.
    pub open spec fn side_spec(&self, i: int) -> int {
        power(self.factor_spec(), (i + 2) as nat)
    }

    /// Sub-units per cell of layer `i`.
    pub open spec fn cell_units_spec(&self, i: int) -> int {
        FOCUS_SUBDIVISION * power(self.factor_spec(), (self.layer_count_spec() - 1 - i) as nat)
    }

    /// Side length of the torus in sub-units.
    pub open spec fn extent_spec(&self) -> int {
        FOCUS_SUBDIVISION * power(self.factor_spec(), (self.layer_count_spec() + 1) as nat)
    }

    /// `pos` wrapped onto the active layer.
    pub open spec fn wrapped(&self, pos: Vec2i) -> (int, int) {
        (
            wrap_axis(pos.x as int, self.side_spec(self.active())),
            wrap_axis(pos.y as int, self.side_spec(self.active())),
        )
    }

    /// The value of the active layer's cell at `pos`, wrapped.
    pub open spec fn tile_spec(&self, pos: Vec2i) -> u8 {
        self.layer_tiles(self.active())[self.wrapped(pos)]
    }

    pub closed spec fn wf(&self) -> bool {
        &&& 1 <= self.layers@.len()
        &&& self.factor >= 2
        &&& power(self.factor as int, (2 * self.layers@.len() + 2) as nat) <= i32::MAX
        &&& self.player_layer < self.layers@.len()
        &&& forall|i: int|
            0 <= i < self.layers@.len() ==> (#[trigger] self.layers@[i]).wf() && self.layers@[i].size_spec()
                == (Vec2i { x: self.side_spec(i) as i32, y: self.side_spec(i) as i32 })
        &&& 0 <= self.focus_x < self.extent_spec()
        &&& 0 <= self.focus_y < self.extent_spec()
    }

    /// The facts about one layer's grid that the methods rely on.
    proof fn lemma_layer(&self, i: int)
        requires
            self.wf(),
            0 <= i < self.layer_count_spec(),
        ensures
            self.layers@[i].wf(),
            self.layers@[i].size_spec().x == self.side_spec(i),
            self.layers@[i].size_spec().y == self.side_spec(i),
            self.layers@.len() < 0x4000_0000,
            power(self.factor as int, (self.layers@.len() - 1 - i) as nat) <= i32::MAX,
            power(self.factor as int, (i + 2) as nat) <= i32::MAX,
            self.side_spec(i) >= 4,
    {
        let f = self.factor as int;
        let l = self.layers@.len() as int;
        self.lemma_wf_facts(i);
        lemma_power_exceeds_exponent(f, (2 * l + 2) as nat);
        lemma_power_monotone(f, (l - 1 - i) as nat, (2 * l + 2) as nat);
        lemma_power_monotone(f, (i + 2) as nat, (2 * l + 2) as nat);
        assert(self.layers@[i].wf());
    }

    /// What holds of every well-formed world.
    pub proof fn lemma_wf_facts(&self, i: int)
        requires
            self.wf(),
            0 <= i < self.layer_count_spec(),
        ensures
            self.layer_count_spec() >= 1,
            self.factor_spec() >= 2,
            0 <= self.active() < self.layer_count_spec(),
            0 <= self.focus().0 < self.extent_spec(),
            0 <= self.focus().1 < self.extent_spec(),
            4 <= self.side_spec(i),
            self.side_spec(i) * self.side_spec(i) <= i32::MAX,
            self.cell_units_spec(i) >= 2,
            self.side_spec(i) * self.cell_units_spec(i) == self.extent_spec(),
            self.extent_spec() <= 2 * i32::MAX,
            i + 1 < self.layer_count_spec() ==> self.side_spec(i + 1) == self.factor_spec()
                * self.side_spec(i),
            i + 1 < self.layer_count_spec() ==> self.cell_units_spec(i) == self.factor_spec()
                * self.cell_units_spec(i + 1),
    {
        let f = self.factor as int;
        let l = self.layers@.len() as int;
        let s = power(f, (i + 2) as nat);
        let c = power(f, (l - 1 - i) as nat);
        lemma_power_monotone(f, 2, (i + 2) as nat);
        assert(power(f, 2) == f * f) by {
            assert(power(f, 1) == f * power(f, 0));
        }
        assert(f * f >= 4) by (nonlinear_arith)
            requires
                f >= 2,
        ;
        lemma_power_adds(f, (i + 2) as nat, (i + 2) as nat);
        lemma_power_monotone(f, (2 * i + 4) as nat, (2 * l + 2) as nat);
        lemma_power_positive(f, (l - 1 - i) as nat);
        lemma_power_adds(f, (i + 2) as nat, (l - 1 - i) as nat);
        assert(s * (2 * c) == 2 * (s * c)) by (nonlinear_arith);
        lemma_power_monotone(f, (l + 1) as nat, (2 * l + 2) as nat);
        if i + 1 < l {
            assert(power(f, (i + 3) as nat) == f * power(f, (i + 2) as nat));
            assert(power(f, (l - 1 - i) as nat) == f * power(f, (l - 2 - i) as nat));
            assert(2 * (f * power(f, (l - 2 - i) as nat)) == f * (2 * power(f, (l - 2 - i) as nat))) by (nonlinear_arith);
        }
    }
}

/// `after` is `before` with the active layer's cell at `pos`, wrapped, set
/// to `value`; nothing else changes.
pub open spec fn tile_written(before: World, after: World, pos: Vec2i, value: u8) -> bool {
    &&& after.wf()
    &&& after.catalog() == before.catalog()
    &&& after.layer_count_spec() == before.layer_count_spec()
    &&& after.factor_spec() == before.factor_spec()
    &&& after.active() == before.active()
    &&& after.focus() == before.focus()
    &&& after.layer_tiles(before.active()) == before.layer_tiles(before.active()).insert(
        before.wrapped(pos),
        value,
    )
    &&& forall|i: int|
        0 <= i < before.layer_count_spec() && i != before.active() ==> #[trigger] after.layer_tiles(i)
            == before.layer_tiles(i)
}

/// `after` is `before` with the focus moved by `dir` cells of the active
/// layer and wrapped onto the torus; `r` tells whether, before wrapping, the
/// moved focus lay outside the layer on either axis.
pub open spec fn focus_moved(before: World, after: World, dir: Vec2i, r: bool) -> bool {
    let cu = before.cell_units_spec(before.active());
    let ext = before.extent_spec();
    let nx = before.focus().0 + dir.x * cu;
    let ny = before.focus().1 + dir.y * cu;
    &&& after.wf()
    &&& after.catalog() == before.catalog()
    &&& after.layer_count_spec() == before.layer_count_spec()
    &&& after.factor_spec() == before.factor_spec()
    &&& after.active() == before.active()
    &&& forall|i: int| #[trigger] after.layer_tiles(i) == before.layer_tiles(i)
    &&& after.focus() == (wrap_axis(nx, ext), wrap_axis(ny, ext))
    &&& r == !(0 <= nx < ext && 0 <= ny < ext)
}

/// The cell of the active layer that holds the focus.
pub open spec fn focus_cell(w: World) -> Vec2i {
    let cu = w.cell_units_spec(w.active());
    Vec2i { x: (w.focus().0 / cu) as i32, y: (w.focus().1 / cu) as i32 }
}

/// `after` is `before` with layer `active + dir` made active where it exists
/// (`r`), else unchanged; the focus keeps its place on the torus.
pub open spec fn layer_shifted(before: World, after: World, dir: int, r: bool) -> bool {
    &&& after.wf()
    &&& after.catalog() == before.catalog()
    &&& after.layer_count_spec() == before.layer_count_spec()
    &&& after.factor_spec() == before.factor_spec()
    &&& forall|i: int| #[trigger] after.layer_tiles(i) == before.layer_tiles(i)
    &&& after.focus() == before.focus()
    &&& r == (0 <= before.active() + dir < before.layer_count_spec())
    &&& after.active() == if r {
        before.active() + dir
    } else {
        before.active()
    }
}

/// Writing a tile and reading the same coordinate gives the value back, however
/// far outside the grid the coordinate lies; writing at a coordinate is writing
/// at its wrapped form.
pub proof fn lemma_world_write_then_read(before: World, after: World, pos: Vec2i, value: u8)
    requires
        before.wf(),
        tile_written(before, after, pos, value),
    ensures
        after.tile_spec(pos) == value,
        ({
            let q = Vec2i { x: before.wrapped(pos).0 as i32, y: before.wrapped(pos).1 as i32 };
            &&& before.wrapped(q) == before.wrapped(pos)
            &&& tile_written(before, after, q, value)
            &&& after.tile_spec(q) == value
        }),
{
    before.lemma_layer(before.active());
    let n = before.side_spec(before.active());
    lemma_wrap_in_range_idempotent(pos.x as int, n);
    lemma_wrap_in_range_idempotent(pos.y as int, n);
}

/// Measured in cells of the active layer, a move wraps exactly when the focus
/// cell plus `dir` leaves `[0, side)` on either axis.
pub proof fn lemma_move_wraps_in_cells(before: World, after: World, dir: Vec2i, r: bool)
    requires
        before.wf(),
        focus_moved(before, after, dir, r),
    ensures
        r == !(0 <= before.focus().0 / before.cell_units_spec(before.active()) + dir.x < before.side_spec(
            before.active(),
        ) && 0 <= before.focus().1 / before.cell_units_spec(before.active()) + dir.y < before.side_spec(
            before.active(),
        )),
{
    let a = before.active();
    before.lemma_wf_facts(a);
    let cu = before.cell_units_spec(a);
    let side = before.side_spec(a);
    lemma_leaves_range_in_cells(before.focus().0, dir.x as int, cu, side);
    lemma_leaves_range_in_cells(before.focus().1, dir.y as int, cu, side);
}

proof fn lemma_leaves_range_in_cells(f: int, d: int, cu: int, side: int)
    requires
        cu > 0,
        0 <= f,
    ensures
        (0 <= f + d * cu < side * cu) == (0 <= f / cu + d < side),
{
    let q = f / cu;
    let m = f % cu;
    lemma_fundamental_div_mod(f, cu);
    assert(f + d * cu == cu * (q + d) + m) by (nonlinear_arith)
        requires
            f == cu * q + m,
    ;
    if q + d >= 0 {
        assert(cu * (q + d) >= 0) by (nonlinear_arith)
            requires
                cu > 0,
                q + d >= 0,
        ;
    } else {
        assert(cu * (q + d) <= -cu) by (nonlinear_arith)
            requires
                cu > 0,
                q + d <= -1,
        ;
    }
    if q + d >= side {
        assert(cu * (q + d) >= side * cu) by (nonlinear_arith)
            requires
                cu > 0,
                q + d >= side,
        ;
    } else {
        assert(cu * (q + d) <= side * cu - cu) by (nonlinear_arith)
            requires
                cu > 0,
                q + d <= side - 1,
        ;
    }
}

/// Shifting the active layer and shifting straight back restores the active
/// layer and the focus exactly.
pub proof fn lemma_shift_round_trip(w0: World, w1: World, w2: World, dir: int, r2: bool)
    requires
        w0.wf(),
        layer_shifted(w0, w1, dir, true),
        layer_shifted(w1, w2, -dir, r2),
    ensures
        r2,
        w2.active() == w0.active(),
        w2.focus() == w0.focus(),
        w2.cell_units_spec(w2.active()) == w0.cell_units_spec(w0.active()),
{
    w0.lemma_wf_facts(w0.active());
}

impl World {
    /// The default world: six layers, each twice as wide as the one before.
    pub fn new(tile_set: TileSet) -> (r: World)
        ensures
            r.wf(),
            r.catalog() == tile_set,
            r.layer_count_spec() == NUM_LAYERS,
            r.factor_spec() == LAYER_FACTOR,
            r.active() == NUM_LAYERS - 1,
            r.focus() == (5int, 5int),
            forall|i: int, x: int, y: int|
                0 <= i < r.layer_count_spec() && 0 <= x < r.side_spec(i) && 0 <= y < r.side_spec(i)
                    ==> #[trigger] r.layer_tiles(i)[(x, y)] == 0,
    {
        proof {
            reveal_with_fuel(power, 15);
        }
        World::with_layers(tile_set, NUM_LAYERS, LAYER_FACTOR)
    }

    /// A world of `layer_count` layers, layer `i` being `scale_factor^(i+2)`
    /// cells on a side, all cells empty. The last layer is active and the
    /// focus stands in the middle of its cell `(2, 2)`.
    pub fn with_layers(tile_set: TileSet, layer_count: usize, scale_factor: i32) -> (r: World)
        requires
            layer_count >= 1,
            scale_factor >= 2,
            power(scale_factor as int, (2 * layer_count + 2) as nat) <= i32::MAX,
        ensures
            r.wf(),
            r.catalog() == tile_set,
            r.layer_count_spec() == layer_count,
            r.factor_spec() == scale_factor,
            r.active() == layer_count - 1,
            r.focus() == (5int, 5int),
            r.cell_units_spec(r.active()) == 2,
            forall|i: int, x: int, y: int|
                0 <= i < r.layer_count_spec() && 0 <= x < r.side_spec(i) && 0 <= y < r.side_spec(i)
                    ==> #[trigger] r.layer_tiles(i)[(x, y)] == 0,
    {
        let f = scale_factor as i64;
        let ghost l = layer_count as int;
        let mut layers: Vec<FlatTileMap> = Vec::new();
        let mut i: usize = 0;
        while i < layer_count
            invariant
                i <= layer_count,
                layers@.len() == i,
                f == scale_factor,
                f >= 2,
                power(f as int, (2 * layer_count + 2) as nat) <= i32::MAX,
                forall|j: int|
                    0 <= j < i ==> (#[trigger] layers@[j]).wf() && layers@[j].size_spec() == (Vec2i {
                        x: power(f as int, (j + 2) as nat) as i32,
                        y: power(f as int, (j + 2) as nat) as i32,
                    }),
                forall|j: int, x: int, y: int|
                    0 <= j < i && 0 <= x < power(f as int, (j + 2) as nat) && 0 <= y < power(f as int, (j + 2) as nat)
                        ==> #[trigger] layers@[j].tiles()[(x, y)] == 0,
            decreases layer_count - i,
        {
            proof {
                lemma_power_exceeds_exponent(f as int, (2 * layer_count + 2) as nat);
                lemma_power_positive(f as int, (i + 2) as nat);
                lemma_power_adds(f as int, (i + 2) as nat, (i + 2) as nat);
                lemma_power_monotone(f as int, (2 * i + 4) as nat, (2 * layer_count + 2) as nat);
                lemma_power_monotone(f as int, (i + 2) as nat, (2 * i + 4) as nat);
            }
            let side = power_i64(f, (i + 2) as u32) as i32;
            layers.push(FlatTileMap::new(Vec2i::splat(side)));
            i = i + 1;
        }
        let r = World {
            layers,
            tile_set,
            factor: scale_factor,
            focus_x: 5,
            focus_y: 5,
            player_layer: layer_count - 1,
        };
        proof {
            lemma_power_monotone(f as int, 2, (l + 1) as nat);
            assert(power(f as int, 2) == f * f) by {
                assert(power(f as int, 1) == f * power(f as int, 0));
            }
            assert(f * f >= 4) by (nonlinear_arith)
                requires
                    f >= 2,
            ;
            assert(power(f as int, 0) == 1);
            assert(r.cell_units_spec(r.active()) == 2);
            assert(r.wf());
        }
        r
    }

    pub fn layer_count(&self) -> (r: usize)
        ensures
            r == self.layer_count_spec(),
    {
        self.layers.len()
    }

    /// The tile catalog.
    pub fn tile_set(&self) -> (r: &TileSet)
        ensures
            *r == self.catalog(),
    {
        &self.tile_set
    }

    pub fn scale_factor(&self) -> (r: i32)
        ensures
            r == self.factor_spec(),
    {
        self.factor
    }

    /// The active layer.
    pub fn player_layer(&self) -> (r: usize)
        ensures
            r == self.active(),
    {
        self.player_layer
    }

    /// The focus, in sub-units.
    pub fn player_units(&self) -> (r: (i64, i64))
        ensures
            r.0 == self.focus().0,
            r.1 == self.focus().1,
    {
        (self.focus_x, self.focus_y)
    }

    /// Side length of layer `layer`: `F^(layer+2)`.
    pub fn layer_size(&self, layer: usize) -> (r: i32)
        requires
            self.wf(),
            layer < self.layer_count_spec(),
        ensures
            r == self.side_spec(layer as int),
    {
        proof {
            self.lemma_layer(layer as int);
        }
        self.layers[layer].get_size().x
    }

    /// Focus sub-units per cell of layer `layer`.
    pub fn units_per_cell(&self, layer: usize) -> (r: i64)
        requires
            self.wf(),
            layer < self.layer_count_spec(),
        ensures
            r == self.cell_units_spec(layer as int),
    {
        let l = self.layers.len();
        proof {
            let f = self.factor as int;
            let n = self.layers@.len() as int;
            self.lemma_layer(layer as int);
        }
        let e: u32 = (l - 1 - layer) as u32;
        assert(e == self.layers@.len() - 1 - layer);
        let p = power_i64(self.factor as i64, e);
        assert(p <= i32::MAX);
        proof {
            lemma_power_positive(self.factor as int, e as nat);
        }
        FOCUS_SUBDIVISION * p
    }

    /// `pos` wrapped onto the active layer.
    pub fn wrap_position(&self, pos: Vec2i) -> (r: Vec2i)
        requires
            self.wf(),
        ensures
            coord(r) == self.wrapped(pos),
            0 <= r.x < self.side_spec(self.active()),
            0 <= r.y < self.side_spec(self.active()),
    {
        proof {
            self.lemma_layer(self.active());
        }
        self.layers[self.player_layer].wrap_position(pos)
    }

    /// The value of the active layer's cell at `pos`, wrapped.
    pub fn get_tile(&self, pos: Vec2i) -> (r: Option<u8>)
        requires
            self.wf(),
        ensures
            r == Some(self.tile_spec(pos)),
    {
        let p = self.wrap_position(pos);
        proof {
            self.lemma_layer(self.active());
        }
        match self.layers[self.player_layer].get_tile(p) {
            Some(v) => Some(*v),
            None => None,
        }
    }

    /// Writes `value` to the active layer's cell at `pos`, wrapped.
    pub fn set_tile(&mut self, pos: Vec2i, value: u8)
        requires
            old(self).wf(),
        ensures
            tile_written(*old(self), *final(self), pos, value),
    {
        let p = self.wrap_position(pos);
        let a = self.player_layer;
        proof {
            self.lemma_layer(a as int);
        }
        let mut layer = self.layers.remove(a);
        layer.set_tile(p, value);
        self.layers.insert(a, layer);
        proof {
            let ol = old(self).layers@;
            assert(self.layers@ == ol.update(a as int, layer));
            assert forall|i: int| 0 <= i < self.layers@.len() implies (#[trigger] self.layers@[i]).wf()
                && self.layers@[i].size_spec() == (Vec2i { x: self.side_spec(i) as i32, y: self.side_spec(i) as i32 }) by {
                if i != a {
                    assert(self.layers@[i] == ol[i]);
                    old(self).lemma_layer(i);
                }
            }
            assert forall|i: int| 0 <= i < ol.len() && i != a implies #[trigger] self.layer_tiles(i) == old(self).layer_tiles(i) by {
                assert(self.layers@[i] == ol[i]);
            }
        }
    }
}

impl World {
    /// Moves the focus by `dir` cells of the active layer, wrapping each axis
    /// onto the torus. Returns whether either axis wrapped.
    pub fn move_player(&mut self, dir: Vec2i) -> (r: bool)
        requires
            old(self).wf(),
        ensures
            focus_moved(*old(self), *final(self), dir, r),
    {
        let a = self.player_layer;
        proof {
            self.lemma_wf_facts(a as int);
            self.lemma_layer(a as int);
        }
        let cu64 = self.units_per_cell(a);
        let side = self.layer_size(a);
        let cu = cu64 as i128;
        let ext = side as i128 * cu;
        proof {
            assert(dir.x * cu <= 0x1_0000_0000_0000_0000_0000) by (nonlinear_arith)
                requires
                    i32::MIN <= dir.x <= i32::MAX,
                    2 <= cu <= 2 * i32::MAX,
            ;
            assert(dir.x * cu >= -0x1_0000_0000_0000_0000_0000) by (nonlinear_arith)
                requires
                    i32::MIN <= dir.x <= i32::MAX,
                    2 <= cu <= 2 * i32::MAX,
            ;
            assert(dir.y * cu <= 0x1_0000_0000_0000_0000_0000) by (nonlinear_arith)
                requires
                    i32::MIN <= dir.y <= i32::MAX,
                    2 <= cu <= 2 * i32::MAX,
            ;
            assert(dir.y * cu >= -0x1_0000_0000_0000_0000_0000) by (nonlinear_arith)
                requires
                    i32::MIN <= dir.y <= i32::MAX,
                    2 <= cu <= 2 * i32::MAX,
            ;
        }
        let nx: i128 = self.focus_x as i128 + dir.x as i128 * cu;
        let ny: i128 = self.focus_y as i128 + dir.y as i128 * cu;
        let did_warp = nx < 0 || nx >= ext || ny < 0 || ny >= ext;
        let wx: i128 = match nx.checked_rem_euclid(ext) {
            Some(v) => v,
            None => 0,
        };
        let wy: i128 = match ny.checked_rem_euclid(ext) {
            Some(v) => v,
            None => 0,
        };
        self.focus_x = wx as i64;
        self.focus_y = wy as i64;
        did_warp
    }

    /// Makes layer `active + dir` active, where there is one. The focus keeps
    /// its place on the torus, so in cells of the new layer it is rescaled by
    /// `F^dir`.
    pub fn shift_layer(&mut self, dir: i32) -> (r: bool)
        requires
            old(self).wf(),
        ensures
            layer_shifted(*old(self), *final(self), dir as int, r),
    {
        proof {
            self.lemma_layer(self.active());
        }
        let new_layer: i64 = self.player_layer as i64 + dir as i64;
        if new_layer < 0 || new_layer >= self.layers.len() as i64 {
            return false;
        }
        self.player_layer = new_layer as usize;
        true
    }

    /// The cell of the active layer that holds the focus.
    pub fn player_cell(&self) -> (r: Vec2i)
        requires
            self.wf(),
        ensures
            r.x == self.focus().0 / self.cell_units_spec(self.active()),
            r.y == self.focus().1 / self.cell_units_spec(self.active()),
    {
        proof {
            self.lemma_wf_facts(self.active());
            self.lemma_layer(self.active());
        }
        let cu = self.units_per_cell(self.player_layer) as u64;
        let x = self.focus_x as u64 / cu;
        let y = self.focus_y as u64 / cu;
        proof {
            let s = self.side_spec(self.active());
            assert(x < s) by (nonlinear_arith)
                requires
                    x == (self.focus_x as int) / (cu as int),
                    self.focus_x < s * cu,
                    cu > 0,
                    self.focus_x >= 0,
            ;
            assert(y < s) by (nonlinear_arith)
                requires
                    y == (self.focus_y as int) / (cu as int),
                    self.focus_y < s * cu,
                    cu > 0,
                    self.focus_y >= 0,
            ;
        }
        Vec2i::new(x as i32, y as i32)
    }

    /// The cell of the layer below that spatially contains the active layer's
    /// cell at `pos`, wrapped; none on layer 0.
    pub fn get_tile_below(&self, pos: Vec2i) -> (r: Option<u8>)
        requires
            self.wf(),
        ensures
            r.is_some() == (self.active() > 0),
            r.is_some() ==> r.unwrap() == self.layer_tiles(self.active() - 1)[(
                self.wrapped(pos).0 / self.factor_spec(),
                self.wrapped(pos).1 / self.factor_spec(),
            )],
    {
        if self.player_layer == 0 {
            return None;
        }
        let a = self.player_layer;
        let p = self.wrap_position(pos);
        let f = self.factor as u32;
        let bx = (p.x as u32 / f) as i32;
        let by = (p.y as u32 / f) as i32;
        proof {
            self.lemma_wf_facts((a - 1) as int);
            self.lemma_layer((a - 1) as int);
            let s = self.side_spec(a - 1);
            let ff = self.factor as int;
            assert(p.x as u32 / f < s) by (nonlinear_arith)
                requires
                    0 <= p.x < ff * s,
                    f == ff,
                    ff > 0,
            ;
            assert(p.y as u32 / f < s) by (nonlinear_arith)
                requires
                    0 <= p.y < ff * s,
                    f == ff,
                    ff > 0,
            ;
        }
        match self.layers[a - 1].get_tile(Vec2i::new(bx, by)) {
            Some(v) => Some(*v),
            None => None,
        }
    }
}

impl World {
    /// The `F * F` cells of the layer above that the active layer's cell at
    /// `pos`, wrapped, spatially contains, in the order of `block_offset`;
    /// none on the last layer.
    pub fn get_tiles_above(&self, pos: Vec2i) -> (r: Option<Vec<u8>>)
        requires
            self.wf(),
        ensures
            r.is_some() == (self.active() + 1 < self.layer_count_spec()),
            r.is_some() ==> r.unwrap()@.len() == self.factor_spec() * self.factor_spec(),
            r.is_some() ==> forall|k: int|
                0 <= k < self.factor_spec() * self.factor_spec() ==> #[trigger] r.unwrap()@[k]
                    == self.layer_tiles(self.active() + 1)[(
                    self.wrapped(pos).0 * self.factor_spec() + block_offset(self.factor_spec(), k).0,
                    self.wrapped(pos).1 * self.factor_spec() + block_offset(self.factor_spec(), k).1,
                )],
    {
        let a = self.player_layer;
        proof {
            self.lemma_layer(a as int);
        }
        if a + 1 >= self.layers.len() {
            return None;
        }
        let p = self.wrap_position(pos);
        let ghost ff = self.factor as int;
        let ghost s = self.side_spec(a as int);
        proof {
            self.lemma_wf_facts(a as int);
            self.lemma_layer((a + 1) as int);
            lemma_power_monotone(ff, 4, (2 * self.layers@.len() + 2) as nat);
            assert(power(ff, 4) == ff * ff * (ff * ff)) by {
                reveal_with_fuel(power, 5);
                assert(ff * (ff * (ff * ff)) == ff * ff * (ff * ff)) by (nonlinear_arith);
            }
            assert(ff * ff <= ff * ff * (ff * ff)) by (nonlinear_arith)
                requires
                    ff >= 2,
            ;
        }
        let f = self.factor as u64;
        let n = f * f;
        let above = &self.layers[a + 1];
        let mut tiles: Vec<u8> = Vec::new();
        let mut k: u64 = 0;
        while k < n
            invariant
                self.wf(),
                a + 1 < self.layers@.len(),
                above == self.layers@[a + 1],
                above.wf(),
                above.size_spec().x == self.side_spec(a + 1),
                above.size_spec().y == self.side_spec(a + 1),
                self.side_spec(a + 1) == ff * s,
                s == self.side_spec(a as int),
                s <= i32::MAX,
                f == ff,
                ff >= 2,
                n == ff * ff,
                0 <= p.x < s,
                0 <= p.y < s,
                coord(p) == self.wrapped(pos),
                k <= n,
                tiles@.len() == k,
                forall|j: int|
                    0 <= j < k ==> #[trigger] tiles@[j] == above.tiles()[(
                        p.x * ff + block_offset(ff, j).0,
                        p.y * ff + block_offset(ff, j).1,
                    )],
            decreases n - k,
        {
            let dx = k / f;
            let rem = k % f;
            let dy = if dx % 2 == 0 {
                rem
            } else {
                f - 1 - rem
            };
            proof {
                assert(dx < ff) by (nonlinear_arith)
                    requires
                        dx == k as int / ff,
                        0 <= k < ff * ff,
                        ff > 0,
                ;
                assert(p.x * ff + dx < ff * s) by (nonlinear_arith)
                    requires
                        0 <= p.x < s,
                        0 <= dx < ff,
                ;
                assert(p.y * ff + dy < ff * s) by (nonlinear_arith)
                    requires
                        0 <= p.y < s,
                        0 <= dy < ff,
                ;
                assert(0 <= p.x * ff) by (nonlinear_arith)
                    requires
                        0 <= p.x,
                        0 <= ff,
                ;
                assert(0 <= p.y * ff) by (nonlinear_arith)
                    requires
                        0 <= p.y,
                        0 <= ff,
                ;
                assert(block_offset(ff, k as int) == (dx as int, dy as int));
            }
            let cell = Vec2i::new((p.x as u64 * f + dx) as i32, (p.y as u64 * f + dy) as i32);
            match above.get_tile(cell) {
                Some(v) => tiles.push(*v),
                None => return None,
            }
            k = k + 1;
        }
        Some(tiles)
    }

    /// The descriptor that the active layer's cell at `pos`, wrapped, names;
    /// none for an empty cell or a value past the catalog's end.
    pub fn get_tile_info(&self, pos: Vec2i) -> (r: Option<&TileInfo>)
        requires
            self.wf(),
        ensures
            r.is_some() == names_entry(self.catalog().infos(), self.tile_spec(pos) as int),
            r.is_some() ==> *r.unwrap() == self.catalog().infos()[self.tile_spec(pos) - 1],
    {
        match self.get_tile(pos) {
            Some(idx) => self.tile_set.get_tile_info(idx as usize),
            None => None,
        }
    }
}

} // verus!
