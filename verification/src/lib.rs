//! Terrain generation for a tile based strategy game: tile types and their
//! flag sets, tile grids, two pattern based generators (an overlapping wave
//! function collapse and an AC4 style constraint solver) and a tile by tile
//! one, and the decisions of the game server about users, guilds, games and
//! players.
pub mod game;
pub mod world;
pub mod main_menu;
pub mod server;
