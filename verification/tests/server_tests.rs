use strategy_haven::server::game::{create_game, Game};
use strategy_haven::server::guild::{
    add_to_guild, create_guild, get_guild_user, is_self_manager, kick_user, leave_guild,
    promote_to_guild_manager, Guild, GuildUser,
};
use strategy_haven::server::identity::Identity;
use strategy_haven::server::player::{add_player, remove_player, replace_player, Player};
use strategy_haven::server::refusal::Refusal;
use strategy_haven::server::user::{identity_connected, identity_disconnected, rename_self, User};

fn id(n: u128) -> Identity {
    Identity { high: 0, low: n }
}

fn member(user: u128, guild_id: u64, guild_manager: bool) -> GuildUser {
    GuildUser { user_id: id(user), guild_id, guild_manager }
}

#[test]
fn the_founder_manages_a_new_guild() {
    let (guild, founder) = create_guild(id(1), "Lions".to_string(), 7);
    assert_eq!(guild.id, 7);
    assert_eq!(guild.name, "Lions");
    let rows = vec![member(2, 3, true), founder];
    assert!(is_self_manager(&rows, 7, id(1)));
    assert!(!is_self_manager(&rows, 7, id(2)));
    assert_eq!(get_guild_user(&rows, 7, id(1)), Some(member(1, 7, true)));
}

#[test]
fn only_managers_add_members() {
    let rows = vec![member(1, 7, true), member(2, 7, false)];
    let guild = Some(Guild { id: 7, name: "Lions".to_string() });
    assert_eq!(add_to_guild(&guild, &rows, id(1), Some(id(3))), Ok(member(3, 7, false)));
    assert_eq!(add_to_guild(&guild, &rows, id(2), Some(id(3))), Err(Refusal::GuildUserNotFound));
    assert_eq!(add_to_guild(&guild, &rows, id(1), None), Err(Refusal::UserNotFound));
    assert_eq!(add_to_guild(&None, &rows, id(1), Some(id(3))), Err(Refusal::GuildNotFound));
}

#[test]
fn the_last_member_leaving_ends_the_guild() {
    let rows = vec![member(1, 7, true), member(2, 7, false), member(2, 8, true)];
    assert_eq!(leave_guild(&rows, 7, id(2)), Ok((member(2, 7, false), false)));
    assert_eq!(leave_guild(&rows, 8, id(2)), Ok((member(2, 8, true), true)));
    assert_eq!(leave_guild(&rows, 8, id(1)), Err(Refusal::GuildUserNotFound));
}

#[test]
fn kicking_and_promoting_need_a_manager() {
    let rows = vec![member(1, 7, true), member(2, 7, false), member(3, 7, false)];
    assert_eq!(kick_user(&rows, 7, id(1), id(1)), Err(Refusal::KickingSelf));
    assert_eq!(kick_user(&rows, 7, id(2), id(3)), Err(Refusal::NotManager));
    assert_eq!(kick_user(&rows, 7, id(1), id(3)), Ok(member(3, 7, false)));
    assert_eq!(kick_user(&rows, 7, id(1), id(4)), Err(Refusal::GuildUserNotFound));
    assert_eq!(promote_to_guild_manager(&rows, 7, id(1), id(2)), Ok(member(2, 7, true)));
    assert_eq!(promote_to_guild_manager(&rows, 7, id(3), id(2)), Err(Refusal::NotManager));
    assert_eq!(promote_to_guild_manager(&rows, 7, id(1), id(9)), Err(Refusal::GuildUserNotFound));
}

#[test]
fn games_and_players_follow_the_guild() {
    let rows = vec![member(1, 7, true), member(2, 7, false)];
    assert_eq!(create_game(&rows, 7, id(1)), Ok(Game { id: 0, guild_id: 7, has_started: false }));
    assert_eq!(create_game(&rows, 7, id(2)), Err(Refusal::NotManager));
    let open = Game { id: 4, guild_id: 7, has_started: false };
    let started = Game { id: 5, guild_id: 7, has_started: true };
    assert_eq!(add_player(Some(open), &rows, id(1), 4, id(2)), Ok(Player { id: 0, game_id: 4, user_id: id(2) }));
    assert_eq!(add_player(Some(started), &rows, id(1), 5, id(2)), Err(Refusal::GameStarted));
    assert_eq!(add_player(Some(open), &rows, id(2), 4, id(2)), Err(Refusal::NotManager));
    assert_eq!(add_player(Some(open), &rows, id(1), 4, id(9)), Err(Refusal::GuildUserNotFound));
    assert_eq!(add_player(None, &rows, id(1), 4, id(2)), Err(Refusal::GameNotFound));
    let player = Player { id: 11, game_id: 5, user_id: id(2) };
    assert_eq!(remove_player(Some(player), Some(started), &rows, id(1)), Err(Refusal::GameStarted));
    assert_eq!(remove_player(Some(player), Some(open), &rows, id(1)), Ok(11));
    assert_eq!(remove_player(None, Some(open), &rows, id(1)), Err(Refusal::PlayerNotFound));
    assert_eq!(remove_player(Some(player), None, &rows, id(1)), Err(Refusal::GameNotFound));
    // a started game still lets a manager hand a place to another member
    assert_eq!(
        replace_player(Some(player), Some(started), &rows, id(1), id(1)),
        Ok(Player { id: 11, game_id: 5, user_id: id(1) })
    );
    assert_eq!(replace_player(Some(player), Some(started), &rows, id(2), id(1)), Err(Refusal::NotManager));
    assert_eq!(replace_player(Some(player), Some(started), &rows, id(1), id(9)), Err(Refusal::GuildUserNotFound));
}

#[test]
fn users_come_and_go() {
    let fresh = identity_connected(None, id(5), "brave-otter".to_string());
    assert_eq!(fresh.identity, id(5));
    assert_eq!(fresh.name, "brave-otter");
    assert!(fresh.online);
    assert_eq!((fresh.avatar_id, fresh.friend_code), (0, 0));
    let known = User { identity: id(6), name: "calm-heron".to_string(), online: false, avatar_id: 3, friend_code: 42 };
    let back = identity_connected(Some(known.clone()), id(6), "unused".to_string());
    assert!(back.online);
    assert_eq!((back.name.as_str(), back.friend_code), ("calm-heron", 42));
    let gone = identity_disconnected(Some(back)).unwrap();
    assert!(!gone.online);
    assert!(identity_disconnected(None).is_none());
    let renamed = rename_self(Some(known), "quick-lynx".to_string()).unwrap();
    assert_eq!(renamed.name, "quick-lynx");
    assert_eq!(renamed.friend_code, 42);
    assert!(rename_self(None, "x".to_string()).is_none());
}
