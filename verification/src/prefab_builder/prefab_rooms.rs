use crate::position::Position;
use crate::prefab_builder::prefab_sections::{pad_lines, padded};
use vstd::prelude::*;

verus! {

/// A small template that is set into an open pocket of the map, on the
/// depths from `first_depth` to `last_depth`.
#[derive(PartialEq, Eq, Clone, Copy, Debug)]
pub struct PrefabRoom {
    pub template: &'static str,
    pub width: usize,
    pub height: usize,
    pub first_depth: i32,
    pub last_depth: i32,
}

/// The room's template as one string of lines of the room's width.
pub fn get_template_str(room: PrefabRoom) -> (out: String)
    ensures
        out@ == padded(room.template@, room.width as int),
{
    pad_lines(room.template, room.width)
}

/// A vault and where it goes.
pub struct Vault<'a> {
    pub vault: &'a PrefabRoom,
    pub pos: Position,
}

pub fn not_a_trap() -> (room: PrefabRoom)
    ensures
        room.template@ == NOT_A_TRAP_MAP@,
        room.width == 5,
        room.height == 5,
        room.first_depth == 0,
        room.last_depth == 100,
{
    PrefabRoom { template: NOT_A_TRAP_MAP, width: 5, height: 5, first_depth: 0, last_depth: 100 }
}

pub fn silly_smile() -> (room: PrefabRoom)
    ensures
        room.template@ == SILLY_SMILE_MAP@,
        room.width == 6,
        room.height == 6,
        room.first_depth == 0,
        room.last_depth == 100,
{
    PrefabRoom { template: SILLY_SMILE_MAP, width: 6, height: 6, first_depth: 0, last_depth: 100 }
}

pub fn checkerboard() -> (room: PrefabRoom)
    ensures
        room.template@ == CHECKERBOARD_MAP@,
        room.width == 6,
        room.height == 6,
        room.first_depth == 0,
        room.last_depth == 100,
{
    PrefabRoom { template: CHECKERBOARD_MAP, width: 6, height: 6, first_depth: 0, last_depth: 100 }
}

pub const NOT_A_TRAP_MAP: &'static str = "

 ^^^
 ^!^
 ^^^

";

pub const SILLY_SMILE_MAP: &'static str = "

 ^  ^
  #

 ###

";

pub const CHECKERBOARD_MAP: &'static str = "

 g#%#
 #!#
 ^# #

";

} // verus!
