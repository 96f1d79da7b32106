use vstd::prelude::*;

verus! {

/// Why the server turned a request down.
#[derive(Debug, Clone, Copy, PartialEq, Eq, Structural)]
pub enum Refusal {
    /// No guild has the id.
    GuildNotFound,
    /// The member row the request needs is missing.
    GuildUserNotFound,
    /// No user has the friend code.
    UserNotFound,
    /// The sender does not manage the guild.
    NotManager,
    /// The sender asked to kick themselves.
    KickingSelf,
    /// No game has the id.
    GameNotFound,
    /// The game has already started.
    GameStarted,
    /// No player has the id.
    PlayerNotFound,
}

} // verus!
