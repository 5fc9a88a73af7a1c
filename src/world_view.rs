use vstd::prelude::*;
use crate::vec2i::Vec2i;
use crate::tiles::{TileInfo, names_entry};
use crate::world::World;

verus! {

/// One quad to draw: a tile's texture region placed at a grid cell.
#[derive(Clone, Copy, PartialEq, Eq, Structural, Debug)]
pub struct TileDraw {
    pub texel_offset: Vec2i,
    pub texel_size: Vec2i,
    pub pos: Vec2i,
}

/// The quad that draws `info` at `pos`.
pub open spec fn quad(info: TileInfo, pos: Vec2i) -> TileDraw {
    TileDraw { texel_offset: info.texel_offset, texel_size: info.texel_size, pos }
}

/// The quads for cell `pos`: its terrain tile where the catalog names one,
/// then the marker where `pos` wraps onto the focus cell.
pub open spec fn cell_draws(world: World, pos: Vec2i, marker: TileInfo) -> Seq<TileDraw> {
    let v = world.tile_spec(pos) as int;
    let terrain = if names_entry(world.catalog().infos(), v) {
        seq![quad(world.catalog().infos()[v - 1], pos)]
    } else {
        Seq::empty()
    };
    let w = world.wrapped(pos);
    let cu = world.cell_units_spec(world.active());
    let on_focus = w.0 == world.focus().0 / cu && w.1 == world.focus().1 / cu;
    if on_focus {
        terrain.push(quad(marker, pos))
    } else {
        terrain
    }
}

/// The quads for cells `x0 .. x1` of row `y`, left to right.
pub open spec fn row_draws(world: World, y: int, x0: int, x1: int, marker: TileInfo) -> Seq<TileDraw>
    decreases x1 - x0,
{
    if x1 <= x0 {
        Seq::empty()
    } else {
        row_draws(world, y, x0, x1 - 1, marker) + cell_draws(
            world,
            Vec2i { x: (x1 - 1) as i32, y: y as i32 },
            marker,
        )
    }
}

/// The quads for rows `y0 .. y1` of the window `x0 .. x1`, bottom to top.
pub open spec fn window_draws(world: World, x0: int, x1: int, y0: int, y1: int, marker: TileInfo) -> Seq<
    TileDraw,
>
    decreases y1 - y0,
{
    if y1 <= y0 {
        Seq::empty()
    } else {
        window_draws(world, x0, x1, y0, y1 - 1, marker) + row_draws(world, y1 - 1, x0, x1, marker)
    }
}

/// The quads of one frame over the window from `bottom` (inclusive) to `top`
/// (exclusive), in row-major order: each cell's terrain tile, then the marker
/// on the focus cell.
pub fn plan_draws(world: &World, bottom: Vec2i, top: Vec2i, marker: &TileInfo) -> (r: Vec<TileDraw>)
    requires
        world.wf(),
    ensures
        r@ == window_draws(*world, bottom.x as int, top.x as int, bottom.y as int, top.y as int, *marker),
{
    let focus = world.player_cell();
    let mut out: Vec<TileDraw> = Vec::new();
    if bottom.y >= top.y {
        return out;
    }
    let mut y: i32 = bottom.y;
    while y < top.y
        invariant
            world.wf(),
            bottom.y <= y <= top.y,
            focus.x == world.focus().0 / world.cell_units_spec(world.active()),
            focus.y == world.focus().1 / world.cell_units_spec(world.active()),
            out@ == window_draws(*world, bottom.x as int, top.x as int, bottom.y as int, y as int, *marker),
        decreases top.y - y,
    {
        let ghost before = out@;
        let mut x: i32 = bottom.x;
        if x < top.x {
            while x < top.x
                invariant
                    world.wf(),
                    bottom.x <= x <= top.x,
                    bottom.y <= y < top.y,
                    focus.x == world.focus().0 / world.cell_units_spec(world.active()),
                    focus.y == world.focus().1 / world.cell_units_spec(world.active()),
                    before == window_draws(*world, bottom.x as int, top.x as int, bottom.y as int, y as int, *marker),
                    out@ == before + row_draws(*world, y as int, bottom.x as int, x as int, *marker),
                decreases top.x - x,
            {
                let pos = Vec2i::new(x, y);
                let ghost row_before = out@;
                match world.get_tile_info(pos) {
                    Some(info) => {
                        out.push(TileDraw { texel_offset: info.texel_offset, texel_size: info.texel_size, pos });
                    },
                    None => {},
                }
                let w = world.wrap_position(pos);
                if w.x == focus.x && w.y == focus.y {
                    out.push(TileDraw { texel_offset: marker.texel_offset, texel_size: marker.texel_size, pos });
                }
                proof {
                    assert(pos == (Vec2i { x: ((x + 1) - 1) as i32, y: y as i32 }));
                    assert(out@ =~= row_before + cell_draws(*world, pos, *marker));
                    assert(before + row_draws(*world, y as int, bottom.x as int, x + 1, *marker) =~= before
                        + row_draws(*world, y as int, bottom.x as int, x as int, *marker) + cell_draws(
                        *world,
                        pos,
                        *marker,
                    ));
                }
                x = x + 1;
            }
        }
        proof {
            assert(window_draws(*world, bottom.x as int, top.x as int, bottom.y as int, y + 1, *marker)
                =~= before + row_draws(*world, y as int, bottom.x as int, top.x as int, *marker));
            if bottom.x >= top.x {
                assert(row_draws(*world, y as int, bottom.x as int, top.x as int, *marker) =~= Seq::empty());
            }
        }
        y = y + 1;
    }
    out
}

} // verus!
