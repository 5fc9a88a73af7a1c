use vstd::prelude::*;
use crate::vec2i::Vec2i;
use vstd::arithmetic::div_mod::{lemma_fundamental_div_mod_converse, lemma_mod_twice};

pub mod tile_flags;

verus! {

/// `pos` lies inside a grid of `size` cells on both axes.
pub open spec fn in_bounds(pos: Vec2i, size: Vec2i) -> bool {
    0 <= pos.x < size.x && 0 <= pos.y < size.y
}

/// Toroidal wrap of one axis: floored modulo, always in `[0, n)` for `n > 0`.
pub open spec fn wrap_axis(c: int, n: int) -> int {
    c % n
}

/// Exec floored modulo of one axis.
pub fn wrap_coord(c: i32, n: i32) -> (r: i32)
    requires
        n > 0,
    ensures
        r == wrap_axis(c as int, n as int),
        0 <= r < n,
{
    match c.checked_rem_euclid(n) {
        Some(r) => r,
        None => 0,
    }
}


/// The key of a coordinate as a pair of mathematical integers.
pub open spec fn coord(pos: Vec2i) -> (int, int) {
    (pos.x as int, pos.y as int)
}

/// Row-major linear index of `(x, y)` in a grid `w` cells wide.
pub open spec fn linear_index(x: int, y: int, w: int) -> int {
    x + y * w
}

/// A row-major index of an in-bounds cell lies in `[0, w * h)`.
pub proof fn lemma_linear_index_bounds(x: int, y: int, w: int, h: int)
    requires
        0 <= x < w,
        0 <= y < h,
    ensures
        0 <= linear_index(x, y, w) < w * h,
{
    assert(0 <= y * w <= (h - 1) * w) by (nonlinear_arith)
        requires
            0 <= y < h,
            w > 0,
    ;
    assert((h - 1) * w + w == w * h) by (nonlinear_arith);
}

/// Two cells of one row width with the same row-major index are the same cell.
pub proof fn lemma_linear_index_injective(x1: int, y1: int, x2: int, y2: int, w: int)
    requires
        0 <= x1 < w,
        0 <= x2 < w,
        linear_index(x1, y1, w) == linear_index(x2, y2, w),
    ensures
        x1 == x2,
        y1 == y2,
{
    let u = linear_index(x1, y1, w);
    lemma_fundamental_div_mod_converse(u, w, y1, x1);
    lemma_fundamental_div_mod_converse(u, w, y2, x2);
}

/// `after` is `before` with the cell at `pos` set to `value`, or unchanged
/// where `pos` is out of bounds: what `TileMap::set_tile` ensures.
pub open spec fn written<M: TileMap>(before: M, after: M, pos: Vec2i, value: u8) -> bool {
    &&& after.wf()
    &&& after.size_spec() == before.size_spec()
    &&& after.tiles() == (if in_bounds(pos, before.size_spec()) {
        before.tiles().insert(coord(pos), value)
    } else {
        before.tiles()
    })
}

/// Wrapping lands in `[0, n)` and wrapping again changes nothing.
pub proof fn lemma_wrap_in_range_idempotent(c: int, n: int)
    requires
        n > 0,
    ensures
        0 <= wrap_axis(c, n) < n,
        wrap_axis(wrap_axis(c, n), n) == wrap_axis(c, n),
{
    lemma_mod_twice(c, n);
}

/// On any backing, an in-bounds cell reads back the value just written to it.
pub proof fn lemma_write_then_read<M: TileMap>(before: M, after: M, pos: Vec2i, value: u8)
    requires
        before.wf(),
        written(before, after, pos, value),
        in_bounds(pos, before.size_spec()),
    ensures
        after.wf(),
        in_bounds(pos, after.size_spec()),
        after.tiles()[coord(pos)] == value,
{
}

/// A dense and a sparse grid of one size whose cells agree still agree after
/// the same write to both; by induction, after any log of writes.
pub proof fn lemma_backings_agree(
    dense0: FlatTileMap,
    dense1: FlatTileMap,
    sparse0: ItemizedTileMap,
    sparse1: ItemizedTileMap,
    pos: Vec2i,
    value: u8,
)
    requires
        dense0.size_spec() == sparse0.size_spec(),
        dense0.tiles() == sparse0.tiles(),
        written(dense0, dense1, pos, value),
        written(sparse0, sparse1, pos, value),
    ensures
        dense1.size_spec() == sparse1.size_spec(),
        dense1.tiles() == sparse1.tiles(),
{
}

/// A toroidal grid of tile values, addressed by integer coordinates.
///
/// The contents are modelled as a map from every in-bounds coordinate to the
/// value of its cell; cells that were never written hold `0`.
pub trait TileMap: Sized {
    /// The internal invariant of the backing store.
    spec fn wf(&self) -> bool;

    /// The extent of the grid on each axis.
    spec fn size_spec(&self) -> Vec2i;

    /// The value of each in-bounds cell.
    spec fn tiles(&self) -> Map<(int, int), u8>;

    /// A well-formed grid has at least one cell.
    proof fn lemma_size_positive(&self)
        requires
            self.wf(),
        ensures
            self.size_spec().x > 0,
            self.size_spec().y > 0,
    ;

    fn set_tile(&mut self, pos: Vec2i, value: u8)
        requires
            old(self).wf(),
        ensures
            final(self).wf(),
            final(self).size_spec() == old(self).size_spec(),
            final(self).tiles() == (if in_bounds(pos, old(self).size_spec()) {
                old(self).tiles().insert(coord(pos), value)
            } else {
                old(self).tiles()
            }),
    ;

    fn get_tile(&self, pos: Vec2i) -> (r: Option<&u8>)
        requires
            self.wf(),
        ensures
            r.is_some() == in_bounds(pos, self.size_spec()),
            r.is_some() ==> *r.unwrap() == self.tiles()[coord(pos)],
    ;

    fn get_size(&self) -> (r: Vec2i)
        requires
            self.wf(),
        ensures
            r == self.size_spec(),
    ;

    fn pos_in_bounds(&self, pos: Vec2i) -> (r: bool)
        requires
            self.wf(),
        ensures
            r == in_bounds(pos, self.size_spec()),
    {
        let sz = self.get_size();
        pos.x >= 0 && pos.x < sz.x && pos.y >= 0 && pos.y < sz.y
    }

    fn wrap_position(&self, pos: Vec2i) -> (r: Vec2i)
        requires
            self.wf(),
        ensures
            r.x == wrap_axis(pos.x as int, self.size_spec().x as int),
            r.y == wrap_axis(pos.y as int, self.size_spec().y as int),
            in_bounds(r, self.size_spec()),
    {
        proof {
            self.lemma_size_positive();
        }
        let sz = self.get_size();
        Vec2i::new(wrap_coord(pos.x, sz.x), wrap_coord(pos.y, sz.y))
    }
}

/// Dense backing: one value per cell, row-major.
pub struct FlatTileMap {
    data: Vec<u8>,
    size: Vec2i,
}

impl FlatTileMap {
    /// A grid of `size.x` by `size.y` cells, all `0`.
    pub fn new(size: Vec2i) -> (r: FlatTileMap)
        requires
            size.x > 0,
            size.y > 0,
            size.x * size.y <= i32::MAX,
        ensures
            r.wf(),
            r.size_spec() == size,
            r.tiles() == Map::new(|k: (int, int)| 0 <= k.0 < size.x && 0 <= k.1 < size.y, |k: (int, int)| 0u8),
    {
        let n: usize = (size.x * size.y) as usize;
        let data: Vec<u8> = vec![0u8; n];
        let r = FlatTileMap { data, size };
        assert(r.tiles() =~= Map::new(|k: (int, int)| 0 <= k.0 < size.x && 0 <= k.1 < size.y, |k: (int, int)| 0u8)) by {
            assert forall|k: (int, int)| 0 <= k.0 < size.x && 0 <= k.1 < size.y implies r.data@[linear_index(k.0, k.1, size.x as int)] == 0u8 by {
                lemma_linear_index_bounds(k.0, k.1, size.x as int, size.y as int);
            }
        }
        r
    }

    /// Overwrites every cell, row by row, with `f` of its coordinate.
    pub fn set_tiles_from<F: Fn(Vec2i) -> u8>(&mut self, f: F)
        requires
            old(self).wf(),
            forall|x: int, y: int|
                0 <= x < old(self).size_spec().x && 0 <= y < old(self).size_spec().y ==> #[trigger] f.requires(
                    ((Vec2i { x: x as i32, y: y as i32 }),),
                ),
        ensures
            final(self).wf(),
            final(self).size_spec() == old(self).size_spec(),
            final(self).tiles().dom() == old(self).tiles().dom(),
            forall|x: int, y: int|
                0 <= x < old(self).size_spec().x && 0 <= y < old(self).size_spec().y ==> f.ensures(
                    ((Vec2i { x: x as i32, y: y as i32 }),),
                    #[trigger] final(self).tiles()[(x, y)],
                ),
    {
        let w = self.size.x;
        let h = self.size.y;
        let mut y: i32 = 0;
        while y < h
            invariant
                self.wf(),
                self.size == old(self).size,
                w == self.size.x,
                h == self.size.y,
                0 <= y <= h,
                forall|x: int, y: int|
                    0 <= x < w && 0 <= y < h ==> #[trigger] f.requires(((Vec2i { x: x as i32, y: y as i32 }),)),
                forall|xx: int, yy: int|
                    0 <= xx < w && 0 <= yy < y ==> f.ensures(
                        ((Vec2i { x: xx as i32, y: yy as i32 }),),
                        #[trigger] self.data@[linear_index(xx, yy, w as int)],
                    ),
            decreases h - y,
        {
            let mut x: i32 = 0;
            while x < w
                invariant
                    self.wf(),
                    self.size == old(self).size,
                    w == self.size.x,
                    h == self.size.y,
                    0 <= x <= w,
                    0 <= y < h,
                    forall|x: int, y: int|
                        0 <= x < w && 0 <= y < h ==> #[trigger] f.requires(((Vec2i { x: x as i32, y: y as i32 }),)),
                    forall|xx: int, yy: int|
                        (0 <= xx < w && 0 <= yy < y) || (0 <= xx < x && yy == y) ==> f.ensures(
                            ((Vec2i { x: xx as i32, y: yy as i32 }),),
                            #[trigger] self.data@[linear_index(xx, yy, w as int)],
                        ),
                decreases w - x,
            {
                proof {
                    lemma_linear_index_bounds(x as int, y as int, w as int, h as int);
                }
                let index: i32 = x + y * w;
                let p = Vec2i { x, y };
                assert(f.requires(((Vec2i { x: (x as int) as i32, y: (y as int) as i32 }),)));
                let v = f(p);
                let ghost prev = self.data@;
                self.data.set(index as usize, v);
                proof {
                    assert forall|xx: int, yy: int|
                        (0 <= xx < w && 0 <= yy < y) || (0 <= xx < x && yy == y) implies
                        self.data@[linear_index(xx, yy, w as int)] == prev[linear_index(xx, yy, w as int)] by {
                        lemma_linear_index_bounds(xx, yy, w as int, h as int);
                        if linear_index(xx, yy, w as int) == index {
                            lemma_linear_index_injective(xx, yy, x as int, y as int, w as int);
                        }
                    }
                }
                x = x + 1;
            }
            y = y + 1;
        }
        proof {
            assert forall|x: int, y: int| 0 <= x < w && 0 <= y < h implies f.ensures(
                ((Vec2i { x: x as i32, y: y as i32 }),),
                #[trigger] self.tiles()[(x, y)],
            ) by {
                assert(self.tiles()[(x, y)] == self.data@[linear_index(x, y, w as int)]);
            }
        }
    }
}

impl TileMap for FlatTileMap {
    proof fn lemma_size_positive(&self) {
    }

    closed spec fn wf(&self) -> bool {
        &&& self.size.x > 0
        &&& self.size.y > 0
        &&& self.size.x * self.size.y <= i32::MAX
        &&& self.data@.len() == self.size.x * self.size.y
    }

    closed spec fn size_spec(&self) -> Vec2i {
        self.size
    }

    closed spec fn tiles(&self) -> Map<(int, int), u8> {
        Map::new(
            |k: (int, int)| 0 <= k.0 < self.size.x && 0 <= k.1 < self.size.y,
            |k: (int, int)| self.data@[linear_index(k.0, k.1, self.size.x as int)],
        )
    }

    fn get_size(&self) -> (r: Vec2i) {
        self.size
    }

    fn set_tile(&mut self, pos: Vec2i, value: u8) {
        if !self.pos_in_bounds(pos) {
            return;
        }
        proof {
            lemma_linear_index_bounds(pos.x as int, pos.y as int, self.size.x as int, self.size.y as int);
        }
        let index: i32 = pos.x + pos.y * self.size.x;
        self.data.set(index as usize, value);
        proof {
            let w = self.size.x as int;
            let h = self.size.y as int;
            assert forall|k: (int, int)| 0 <= k.0 < w && 0 <= k.1 < h && k != coord(pos) implies
                self.data@[linear_index(k.0, k.1, w)] == old(self).data@[linear_index(k.0, k.1, w)] by {
                lemma_linear_index_bounds(k.0, k.1, w, h);
                if linear_index(k.0, k.1, w) == index {
                    lemma_linear_index_injective(k.0, k.1, pos.x as int, pos.y as int, w);
                }
            }
            assert(self.tiles() =~= old(self).tiles().insert(coord(pos), value));
        }
    }

    fn get_tile(&self, pos: Vec2i) -> (r: Option<&u8>) {
        if self.pos_in_bounds(pos) {
            proof {
                lemma_linear_index_bounds(pos.x as int, pos.y as int, self.size.x as int, self.size.y as int);
            }
            let index: i32 = pos.x + pos.y * self.size.x;
            Some(&self.data[index as usize])
        } else {
            None
        }
    }
}

/// The key under which the sparse backing orders an entry.
pub open spec fn entry_key(e: (Vec2i, u8), w: int) -> int {
    linear_index(e.0.x as int, e.0.y as int, w)
}

/// Entries are in bounds and strictly ordered by key, so each cell has at most one.
pub open spec fn entries_wf(data: Seq<(Vec2i, u8)>, size: Vec2i) -> bool {
    &&& forall|i: int| 0 <= i < data.len() ==> in_bounds(#[trigger] data[i].0, size)
    &&& forall|i: int, j: int|
        0 <= i < j < data.len() ==> entry_key(#[trigger] data[i], size.x as int) < entry_key(
            #[trigger] data[j],
            size.x as int,
        )
}

/// The value stored under key `k`, or `0` where no entry has that key.
pub open spec fn stored_value(data: Seq<(Vec2i, u8)>, w: int, k: int) -> u8 {
    if exists|i: int| 0 <= i < data.len() && entry_key(#[trigger] data[i], w) == k {
        let i = choose|i: int| 0 <= i < data.len() && entry_key(#[trigger] data[i], w) == k;
        data[i].1
    } else {
        0
    }
}

/// In a well-formed entry list, the value under an entry's key is that entry's.
pub proof fn lemma_stored_value_at(data: Seq<(Vec2i, u8)>, size: Vec2i, i: int)
    requires
        entries_wf(data, size),
        0 <= i < data.len(),
    ensures
        stored_value(data, size.x as int, entry_key(data[i], size.x as int)) == data[i].1,
{
    let w = size.x as int;
    let k = entry_key(data[i], w);
    assert(entry_key(data[i], w) == k);
    let j = choose|j: int| 0 <= j < data.len() && entry_key(#[trigger] data[j], w) == k;
    if j < i {
        assert(entry_key(data[j], w) < entry_key(data[i], w));
    } else if i < j {
        assert(entry_key(data[i], w) < entry_key(data[j], w));
    }
}

/// Sparse backing: a list of `(coordinate, value)` entries sorted by row-major
/// key; a cell without an entry holds `0`.
pub struct ItemizedTileMap {
    data: Vec<(Vec2i, u8)>,
    size: Vec2i,
    empty: u8,
}

impl ItemizedTileMap {
    /// A grid of `size.x` by `size.y` cells, all `0`, holding no entries.
    pub fn new(size: Vec2i) -> (r: ItemizedTileMap)
        requires
            size.x > 0,
            size.y > 0,
            size.x * size.y <= i32::MAX,
        ensures
            r.wf(),
            r.size_spec() == size,
            r.tiles() == Map::new(|k: (int, int)| 0 <= k.0 < size.x && 0 <= k.1 < size.y, |k: (int, int)| 0u8),
    {
        let r = ItemizedTileMap { data: Vec::new(), size, empty: 0 };
        assert(r.tiles() =~= Map::new(|k: (int, int)| 0 <= k.0 < size.x && 0 <= k.1 < size.y, |k: (int, int)| 0u8));
        r
    }

    /// The key of an in-bounds coordinate.
    fn hash_pos(&self, p: Vec2i) -> (r: i32)
        requires
            self.wf(),
            in_bounds(p, self.size),
        ensures
            r == linear_index(p.x as int, p.y as int, self.size.x as int),
            0 <= r < self.size.x * self.size.y,
    {
        proof {
            lemma_linear_index_bounds(p.x as int, p.y as int, self.size.x as int, self.size.y as int);
        }
        p.x + p.y * self.size.x
    }

    /// The first position whose entry's key is at least `k`.
    fn search(&self, k: i32) -> (r: usize)
        requires
            self.wf(),
        ensures
            r <= self.data@.len(),
            forall|i: int| 0 <= i < r ==> entry_key(#[trigger] self.data@[i], self.size.x as int) < k,
            forall|i: int|
                r <= i < self.data@.len() ==> entry_key(#[trigger] self.data@[i], self.size.x as int) >= k,
    {
        let mut lo: usize = 0;
        let mut hi: usize = self.data.len();
        while lo < hi
            invariant
                self.wf(),
                0 <= lo <= hi <= self.data@.len(),
                forall|i: int| 0 <= i < lo ==> entry_key(#[trigger] self.data@[i], self.size.x as int) < k,
                forall|i: int|
                    hi <= i < self.data@.len() ==> entry_key(#[trigger] self.data@[i], self.size.x as int) >= k,
            decreases hi - lo,
        {
            let mid: usize = lo + (hi - lo) / 2;
            let e = self.data[mid];
            let key = self.hash_pos(e.0);
            if key < k {
                proof {
                    assert forall|i: int| 0 <= i < mid + 1 implies entry_key(
                        #[trigger] self.data@[i],
                        self.size.x as int,
                    ) < k by {
                        if i < mid {
                            assert(entry_key(self.data@[i], self.size.x as int) < entry_key(self.data@[mid as int], self.size.x as int));
                        }
                    }
                }
                lo = mid + 1;
            } else {
                proof {
                    assert forall|i: int| mid <= i < self.data@.len() implies entry_key(
                        #[trigger] self.data@[i],
                        self.size.x as int,
                    ) >= k by {
                        if i > mid {
                            assert(entry_key(self.data@[mid as int], self.size.x as int) < entry_key(self.data@[i], self.size.x as int));
                        }
                    }
                }
                hi = mid;
            }
        }
        lo
    }
}

impl TileMap for ItemizedTileMap {
    proof fn lemma_size_positive(&self) {
    }

    closed spec fn wf(&self) -> bool {
        &&& self.size.x > 0
        &&& self.size.y > 0
        &&& self.size.x * self.size.y <= i32::MAX
        &&& self.empty == 0
        &&& entries_wf(self.data@, self.size)
    }

    closed spec fn size_spec(&self) -> Vec2i {
        self.size
    }

    closed spec fn tiles(&self) -> Map<(int, int), u8> {
        Map::new(
            |k: (int, int)| 0 <= k.0 < self.size.x && 0 <= k.1 < self.size.y,
            |k: (int, int)| stored_value(self.data@, self.size.x as int, linear_index(k.0, k.1, self.size.x as int)),
        )
    }

    fn get_size(&self) -> (r: Vec2i) {
        self.size
    }

    fn set_tile(&mut self, pos: Vec2i, value: u8) {
        if !self.pos_in_bounds(pos) {
            return;
        }
        let k = self.hash_pos(pos);
        let idx = self.search(k);
        let ghost w = self.size.x as int;
        let ghost h = self.size.y as int;
        let ghost prev = self.data@;
        if idx < self.data.len() && self.hash_pos(self.data[idx].0) == k {
            self.data.set(idx, (pos, value));
            proof {
                assert(self.data@ == prev.update(idx as int, (pos, value)));
                assert(entries_wf(self.data@, self.size)) by {
                    assert forall|i: int, j: int| 0 <= i < j < self.data@.len() implies entry_key(
                        #[trigger] self.data@[i],
                        w,
                    ) < entry_key(#[trigger] self.data@[j], w) by {
                        assert(entry_key(self.data@[i], w) == entry_key(prev[i], w));
                        assert(entry_key(self.data@[j], w) == entry_key(prev[j], w));
                    }
                }
                assert forall|kk: (int, int)| 0 <= kk.0 < w && 0 <= kk.1 < h implies #[trigger] self.tiles()[kk]
                    == old(self).tiles().insert(coord(pos), value)[kk] by {
                    let kq = linear_index(kk.0, kk.1, w);
                    lemma_linear_index_bounds(kk.0, kk.1, w, h);
                    if kq == k {
                        lemma_linear_index_injective(kk.0, kk.1, pos.x as int, pos.y as int, w);
                        lemma_stored_value_at(self.data@, self.size, idx as int);
                    } else {
                        if exists|i: int| 0 <= i < prev.len() && entry_key(#[trigger] prev[i], w) == kq {
                            let i = choose|i: int| 0 <= i < prev.len() && entry_key(#[trigger] prev[i], w) == kq;
                            lemma_stored_value_at(prev, self.size, i);
                            lemma_stored_value_at(self.data@, self.size, i);
                        } else {
                            assert forall|i: int| 0 <= i < self.data@.len() implies entry_key(#[trigger] self.data@[i], w) != kq by {
                                if i != idx {
                                    assert(self.data@[i] == prev[i]);
                                }
                            }
                        }
                    }
                }
                assert(self.tiles() =~= old(self).tiles().insert(coord(pos), value));
            }
        } else {
            self.data.insert(idx, (pos, value));
            proof {
                assert(self.data@ == prev.insert(idx as int, (pos, value)));
                assert(entries_wf(self.data@, self.size)) by {
                    assert forall|i: int| 0 <= i < self.data@.len() implies in_bounds(#[trigger] self.data@[i].0, self.size) by {
                        if i < idx {
                            assert(self.data@[i] == prev[i]);
                        } else if i > idx {
                            assert(self.data@[i] == prev[i - 1]);
                        }
                    }
                    assert forall|i: int, j: int| 0 <= i < j < self.data@.len() implies entry_key(
                        #[trigger] self.data@[i],
                        w,
                    ) < entry_key(#[trigger] self.data@[j], w) by {
                        if i < idx {
                            assert(self.data@[i] == prev[i]);
                        } else if i > idx {
                            assert(self.data@[i] == prev[i - 1]);
                        }
                        if j < idx {
                            assert(self.data@[j] == prev[j]);
                        } else if j > idx {
                            assert(self.data@[j] == prev[j - 1]);
                        }
                        if i > idx {
                            assert(entry_key(prev[i - 1], w) < entry_key(prev[j - 1], w));
                        }
                    }
                }
                assert forall|kk: (int, int)| 0 <= kk.0 < w && 0 <= kk.1 < h implies #[trigger] self.tiles()[kk]
                    == old(self).tiles().insert(coord(pos), value)[kk] by {
                    let kq = linear_index(kk.0, kk.1, w);
                    lemma_linear_index_bounds(kk.0, kk.1, w, h);
                    if kq == k {
                        lemma_linear_index_injective(kk.0, kk.1, pos.x as int, pos.y as int, w);
                        lemma_stored_value_at(self.data@, self.size, idx as int);
                    } else {
                        if exists|i: int| 0 <= i < prev.len() && entry_key(#[trigger] prev[i], w) == kq {
                            let i = choose|i: int| 0 <= i < prev.len() && entry_key(#[trigger] prev[i], w) == kq;
                            lemma_stored_value_at(prev, self.size, i);
                            if i < idx {
                                assert(self.data@[i] == prev[i]);
                                lemma_stored_value_at(self.data@, self.size, i);
                            } else {
                                assert(self.data@[i + 1] == prev[i]);
                                lemma_stored_value_at(self.data@, self.size, i + 1);
                            }
                        } else {
                            assert forall|i: int| 0 <= i < self.data@.len() implies entry_key(#[trigger] self.data@[i], w) != kq by {
                                if i < idx {
                                    assert(self.data@[i] == prev[i]);
                                } else if i > idx {
                                    assert(self.data@[i] == prev[i - 1]);
                                }
                            }
                        }
                    }
                }
                assert(self.tiles() =~= old(self).tiles().insert(coord(pos), value));
            }
        }
    }

    fn get_tile(&self, pos: Vec2i) -> (r: Option<&u8>) {
        if !self.pos_in_bounds(pos) {
            return None;
        }
        let k = self.hash_pos(pos);
        let idx = self.search(k);
        if idx < self.data.len() && self.hash_pos(self.data[idx].0) == k {
            proof {
                lemma_stored_value_at(self.data@, self.size, idx as int);
            }
            Some(&self.data[idx].1)
        } else {
            proof {
                assert forall|i: int| 0 <= i < self.data@.len() implies entry_key(#[trigger] self.data@[i], self.size.x as int) != k by {
                    if i > idx {
                        assert(entry_key(self.data@[idx as int], self.size.x as int) < entry_key(self.data@[i], self.size.x as int));
                    }
                }
            }
            Some(&self.empty)
        }
    }
}

/// Immutable metadata of one catalog entry.
#[derive(Clone, Debug)]
pub struct TileInfo {
    pub name: String,
    pub texel_offset: Vec2i,
    pub texel_size: Vec2i,
    pub flags: u32,
}

impl TileInfo {
    /// The tile lets the focus change layer.
    pub fn allows_z_move(&self) -> (r: bool)
        ensures
            r == (self.flags & tile_flags::ALLOWS_Z_MOVE != 0),
    {
        self.flags & tile_flags::ALLOWS_Z_MOVE > 0
    }
}

/// The catalog of tile descriptors. Cell value `i > 0` names entry `i - 1`;
/// `0` is the empty cell.
#[derive(Debug)]
pub struct TileSet {
    tile_infos: Vec<TileInfo>,
}

/// Cell value `index` names a catalog entry.
pub open spec fn names_entry(infos: Seq<TileInfo>, index: int) -> bool {
    1 <= index <= infos.len()
}

impl TileSet {
    /// The descriptors, in catalog order.
    pub closed spec fn infos(&self) -> Seq<TileInfo> {
        self.tile_infos@
    }

    /// A catalog holding `info` in the given order.
    pub fn new(info: Vec<TileInfo>) -> (r: TileSet)
        ensures
            r.infos() == info@,
    {
        TileSet { tile_infos: info }
    }

    /// The descriptor at the 1-based `index`; none for `0` or past the end.
    pub fn get_tile_info(&self, index: usize) -> (r: Option<&TileInfo>)
        ensures
            r.is_some() == names_entry(self.infos(), index as int),
            r.is_some() ==> *r.unwrap() == self.infos()[index - 1],
    {
        if index == 0 || index > self.tile_infos.len() {
            None
        } else {
            Some(&self.tile_infos[index - 1])
        }
    }

    /// The first descriptor named `name`.
    pub fn get_tile_info_by_name(&self, name: &str) -> (r: Option<&TileInfo>)
        ensures
            match r {
                Some(ti) => exists|i: int|
                    0 <= i < self.infos().len() && self.infos()[i] == *ti && ti.name@ == name@ && forall|j: int|
                        0 <= j < i ==> (#[trigger] self.infos()[j]).name@ != name@,
                None => forall|j: int| 0 <= j < self.infos().len() ==> (#[trigger] self.infos()[j]).name@ != name@,
            },
    {
        let key = name.to_owned();
        let mut i: usize = 0;
        while i < self.tile_infos.len()
            invariant
                i <= self.tile_infos@.len(),
                key@ == name@,
                forall|j: int| 0 <= j < i ==> (#[trigger] self.tile_infos@[j]).name@ != name@,
            decreases self.tile_infos@.len() - i,
        {
            if self.tile_infos[i].name == key {
                assert(self.infos()[i as int] == self.tile_infos@[i as int]);
                assert(forall|j: int| 0 <= j < i ==> (#[trigger] self.infos()[j]).name@ != name@);
                return Some(&self.tile_infos[i]);
            }
            i = i + 1;
        }
        None
    }
}

} // verus!
