use vstd::prelude::*;
use crate::vec2i::Vec2i;
use crate::tiles::{names_entry, tile_flags};
use crate::world::{World, tile_written, focus_moved, layer_shifted, focus_cell};

verus! {

/// A player command, as decoded from input by the host.
#[derive(Clone, Copy, PartialEq, Eq, Structural, Debug)]
pub enum Command {
    /// Move the focus by this many cells of the active layer.
    Move(Vec2i),
    /// Change to the layer this many steps up (or down, when negative).
    ShiftLayer(i32),
}

/// What a command did, so the host can move its camera to match.
#[derive(Clone, Copy, PartialEq, Eq, Structural, Debug)]
pub enum Outcome {
    /// The focus moved and wrapped around the torus.
    Warped,
    /// The active layer changed.
    Shifted,
    /// The focus moved without wrapping, or nothing changed.
    Unchanged,
}

/// What a cell value becomes when clicked: `0 -> 1 -> 2 -> 0`.
pub open spec fn toggled(v: u8) -> u8 {
    ((v as int + 1) % 3) as u8
}

/// The tile under the focus lets the focus change layer.
pub open spec fn z_move_allowed(w: World) -> bool {
    let v = w.tile_spec(focus_cell(w)) as int;
    let infos = w.catalog().infos();
    names_entry(infos, v) && infos[v - 1].flags & tile_flags::ALLOWS_Z_MOVE != 0
}

/// Cycles the active layer's cell at `pos`, wrapped, to its next value.
pub fn toggle_tile(world: &mut World, pos: Vec2i)
    requires
        old(world).wf(),
    ensures
        tile_written(*old(world), *final(world), pos, toggled(old(world).tile_spec(pos))),
{
    let v = match world.get_tile(pos) {
        Some(v) => v,
        None => 0,
    };
    let next = ((v as u16 + 1) % 3) as u8;
    world.set_tile(pos, next);
}

/// Carries out one command. A layer change happens only where the tile under
/// the focus allows it; otherwise the world is left as it was.
pub fn apply_command(world: &mut World, cmd: Command) -> (r: Outcome)
    requires
        old(world).wf(),
    ensures
        final(world).wf(),
        match cmd {
            Command::Move(d) => r != Outcome::Shifted && focus_moved(
                *old(world),
                *final(world),
                d,
                r == Outcome::Warped,
            ),
            Command::ShiftLayer(dir) => r != Outcome::Warped && if z_move_allowed(*old(world)) {
                layer_shifted(*old(world), *final(world), dir as int, r == Outcome::Shifted)
            } else {
                *final(world) == *old(world) && r == Outcome::Unchanged
            },
        },
{
    match cmd {
        Command::Move(d) => {
            if world.move_player(d) {
                Outcome::Warped
            } else {
                Outcome::Unchanged
            }
        },
        Command::ShiftLayer(dir) => {
            let cell = world.player_cell();
            let allowed = match world.get_tile_info(cell) {
                Some(info) => info.allows_z_move(),
                None => false,
            };
            if allowed {
                if world.shift_layer(dir) {
                    Outcome::Shifted
                } else {
                    Outcome::Unchanged
                }
            } else {
                Outcome::Unchanged
            }
        },
    }
}

} // verus!
