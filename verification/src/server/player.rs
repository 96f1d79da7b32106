use vstd::prelude::*;

use crate::server::game::Game;
use crate::server::guild::{find_member, get_guild_user, is_self_manager, manages, GuildUser};
use crate::server::identity::Identity;
use crate::server::refusal::Refusal;

verus! {

/// A player of a game: the user `user_id` plays game `game_id`.
#[derive(Debug, Clone, Copy, PartialEq, Eq, Structural)]
pub struct Player {
    pub id: u64,
    pub game_id: u64,
    pub user_id: Identity,
}

/// The sender adding user `user_id` as a player of game `game_id`: `game` is
/// the game the table finds under that id and `rows` the membership table.
/// Refused for a missing or started game, a sender who does not manage the
/// game's guild, and a user who is not a member of it. Returns the row to
/// insert, its id left for the table to assign.
pub fn add_player(
    game: Option<Game>,
    rows: &Vec<GuildUser>,
    sender: Identity,
    game_id: u64,
    user_id: Identity,
) -> (r: Result<Player, Refusal>)
    ensures
        r == (match game {
            None => Err::<Player, Refusal>(Refusal::GameNotFound),
            Some(g) => if g.has_started {
                Err(Refusal::GameStarted)
            } else if !manages(rows@, g.guild_id, sender) {
                Err(Refusal::NotManager)
            } else if find_member(rows@, g.guild_id, user_id) is None {
                Err(Refusal::GuildUserNotFound)
            } else {
                Ok(Player { id: 0, game_id, user_id })
            },
        }),
{
    let game = match game {
        Some(g) => g,
        None => {
            return Err(Refusal::GameNotFound);
        },
    };
    if game.has_started {
        return Err(Refusal::GameStarted);
    }
    if !is_self_manager(rows, game.guild_id, sender) {
        return Err(Refusal::NotManager);
    }
    if get_guild_user(rows, game.guild_id, user_id).is_none() {
        return Err(Refusal::GuildUserNotFound);
    }
    Ok(Player { id: 0, game_id, user_id })
}

/// The sender removing a player: `player` is the player the table finds
/// under the requested id and `game` the game the table finds under the
/// player's game id. Refused for a missing player or game, a started game,
/// and a sender who does not manage the game's guild. Returns the id of the
/// row to delete.
pub fn remove_player(
    player: Option<Player>,
    game: Option<Game>,
    rows: &Vec<GuildUser>,
    sender: Identity,
) -> (r: Result<u64, Refusal>)
    ensures
        r == (match player {
            None => Err::<u64, Refusal>(Refusal::PlayerNotFound),
            Some(p) => match game {
                None => Err(Refusal::GameNotFound),
                Some(g) => if g.has_started {
                    Err(Refusal::GameStarted)
                } else if !manages(rows@, g.guild_id, sender) {
                    Err(Refusal::NotManager)
                } else {
                    Ok(p.id)
                },
            },
        }),
{
    let player = match player {
        Some(p) => p,
        None => {
            return Err(Refusal::PlayerNotFound);
        },
    };
    let game = match game {
        Some(g) => g,
        None => {
            return Err(Refusal::GameNotFound);
        },
    };
    if game.has_started {
        return Err(Refusal::GameStarted);
    }
    if !is_self_manager(rows, game.guild_id, sender) {
        return Err(Refusal::NotManager);
    }
    Ok(player.id)
}

/// The sender handing a player's place to user `user_id`: `player` and
/// `game` as for `remove_player`. Refused for a missing player or game, a
/// sender who does not manage the game's guild, and a user who is not a
/// member of it; a started game is no reason. Returns the updated row.
pub fn replace_player(
    player: Option<Player>,
    game: Option<Game>,
    rows: &Vec<GuildUser>,
    sender: Identity,
    user_id: Identity,
) -> (r: Result<Player, Refusal>)
    ensures
        r == (match player {
            None => Err::<Player, Refusal>(Refusal::PlayerNotFound),
            Some(p) => match game {
                None => Err(Refusal::GameNotFound),
                Some(g) => if !manages(rows@, g.guild_id, sender) {
                    Err(Refusal::NotManager)
                } else if find_member(rows@, g.guild_id, user_id) is None {
                    Err(Refusal::GuildUserNotFound)
                } else {
                    Ok(Player { user_id, ..p })
                },
            },
        }),
{
    let player = match player {
        Some(p) => p,
        None => {
            return Err(Refusal::PlayerNotFound);
        },
    };
    let game = match game {
        Some(g) => g,
        None => {
            return Err(Refusal::GameNotFound);
        },
    };
    if !is_self_manager(rows, game.guild_id, sender) {
        return Err(Refusal::NotManager);
    }
    if get_guild_user(rows, game.guild_id, user_id).is_none() {
        return Err(Refusal::GuildUserNotFound);
    }
    Ok(Player { user_id, ..player })
}

} // verus!
