use vstd::prelude::*;

verus! {

/// The screens of the main menu.
#[derive(Debug, Clone, Copy, Eq, PartialEq, Hash, Structural)]
pub enum MainMenuState {
    ServerSelection,
    SingleplayerLoading,
    JoinLoading,
    HostLoading,
    MatchLobby,
    Hidden,
}

impl Default for MainMenuState {
    /// The menu starts at the server selection.
    fn default() -> (r: Self)
        ensures
            r == MainMenuState::ServerSelection,
    {
        MainMenuState::ServerSelection
    }
}

} // verus!
