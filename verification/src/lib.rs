//! Procedural dungeon-level generation.
//!
//! A level is a rectangular grid of tiles carved by one of two seeded
//! algorithms: random room placement joined by corridors, or binary space
//! partitioning with one room per leaf region. Given the same random source
//! state and parameters, either algorithm reproduces the same level.

use vstd::prelude::*;

pub mod board;
pub mod bsp;
pub mod corridor;
pub mod error;
pub mod level;
pub mod path;
pub mod rng;
pub mod room;
pub mod rooms;
pub mod tile;
pub mod walls;

verus! {

/// The two interchangeable generation algorithms.
#[derive(Clone, Copy, PartialEq, Eq, Structural, Debug)]
pub enum Algorithm {
    RoomsCorridors,
    Bsp,
}

/// The inputs a generator accepts: positive board sides, positive minimum
/// room sides, and a minimum that does not exceed the board on either axis.
pub open spec fn valid_config(width: int, height: int, min_w: int, min_h: int) -> bool {
    0 < width && 0 < height && 0 < min_w && 0 < min_h && min_w <= width && min_h <= height
}

/// A room of the minimum size fits inside a `width` by `height` region while
/// keeping one tile of spacing to the region's boundary.
pub open spec fn can_host(width: int, height: int, min_w: int, min_h: int) -> bool {
    min_w + 2 <= width && min_h + 2 <= height
}

/// Generates a level with the chosen algorithm. Fails with `InvalidConfig`
/// exactly when a dimension or a minimum room side is non-positive or a
/// minimum exceeds the board; on success the level satisfies the shared
/// guarantees of both generators.
pub fn generate(
    algorithm: Algorithm,
    width: i32,
    height: i32,
    seed: &str,
    rng: &mut rand::rngs::StdRng,
    add_walls: bool,
    min_room_width: i32,
    min_room_height: i32,
) -> (r: Result<level::Level, error::DungeonError>)
    requires
        width as int * height as int <= i32::MAX as int,
    ensures
        r is Err <==> !valid_config(
            width as int, height as int, min_room_width as int, min_room_height as int),
        r is Err ==> r == Err::<level::Level, error::DungeonError>(
            error::DungeonError::InvalidConfig),
        r is Ok ==> {
            let lv = r.unwrap();
            &&& lv.wf()
            &&& lv.width == width
            &&& lv.height == height
            &&& lv.seed@ == seed@
            &&& lv.algorithm == algorithm
            &&& lv.rooms_ok(min_room_width as int, min_room_height as int,
                room::ROOM_MARGIN as int)
            &&& lv.rooms_carved()
            &&& lv.floor_only_in_rooms()
            &&& lv.rooms_connected()
            &&& lv.walls_decorated(add_walls)
            &&& can_host(width as int, height as int, min_room_width as int,
                min_room_height as int) ==> lv.rooms@.len() >= 1
        },
{
    match algorithm {
        Algorithm::RoomsCorridors => rooms::generate_rooms_corridors(
            width, height, seed, rng, add_walls, min_room_width, min_room_height),
        Algorithm::Bsp => bsp::generate_bsp(
            width, height, seed, rng, add_walls, min_room_width, min_room_height),
    }
}

} // verus!
