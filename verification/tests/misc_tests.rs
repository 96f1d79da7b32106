use strategy_haven::main_menu::main_menu_state::MainMenuState;
use strategy_haven::world::world_tile_position::WorldTilePosition;

#[test]
fn neighbours_around_a_position() {
    let p = WorldTilePosition::new(3, -2);
    let n = p.neighbours();
    assert_eq!(n[0], WorldTilePosition::new(4, -2));
    assert_eq!(n[1], WorldTilePosition::new(2, -2));
    assert_eq!(n[2], WorldTilePosition::new(3, -1));
    assert_eq!(n[3], WorldTilePosition::new(3, -3));
    assert_eq!(n[4], WorldTilePosition::new(4, -1));
    assert_eq!(n[5], WorldTilePosition::new(2, -1));
    assert_eq!(n[6], WorldTilePosition::new(4, -3));
    assert_eq!(n[7], WorldTilePosition::new(2, -3));
}

#[test]
fn menu_starts_at_server_selection() {
    assert_eq!(MainMenuState::default(), MainMenuState::ServerSelection);
}
