use vstd::prelude::*;

use crate::server::guild::{is_self_manager, manages, GuildUser};
use crate::server::identity::Identity;
use crate::server::refusal::Refusal;

verus! {

/// A game of a guild, and whether it has started.
#[derive(Debug, Clone, Copy, PartialEq, Eq, Structural)]
pub struct Game {
    pub id: u64,
    pub guild_id: u64,
    pub has_started: bool,
}

/// The sender creating a game for guild `guild_id`, given the membership
/// table `rows`: refused to a sender who does not manage the guild. Returns
/// the row to insert, not started, its id left for the table to assign.
pub fn create_game(rows: &Vec<GuildUser>, guild_id: u64, sender: Identity) -> (r: Result<Game, Refusal>)
    ensures
        r == (if manages(rows@, guild_id, sender) {
            Ok::<Game, Refusal>(Game { id: 0, guild_id, has_started: false })
        } else {
            Err(Refusal::NotManager)
        }),
{
    if !is_self_manager(rows, guild_id, sender) {
        return Err(Refusal::NotManager);
    }
    Ok(Game { id: 0, guild_id, has_started: false })
}

} // verus!
