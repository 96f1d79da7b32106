use vstd::prelude::*;

use crate::server::identity::Identity;
use crate::server::refusal::Refusal;

verus! {

/// A guild: its id and name.
#[derive(Debug, Clone)]
pub struct Guild {
    pub id: u64,
    pub name: String,
}

/// A row of the membership table: user `user_id` belongs to guild
/// `guild_id`, as a manager or not.
#[derive(Debug, Clone, Copy, PartialEq, Eq, Structural)]
pub struct GuildUser {
    pub user_id: Identity,
    pub guild_id: u64,
    pub guild_manager: bool,
}

/// The first row, in table order, that makes `user_id` a member of guild
/// `guild_id`.
pub open spec fn find_member(rows: Seq<GuildUser>, guild_id: u64, user_id: Identity) -> Option<GuildUser>
    decreases rows.len(),
{
    if rows.len() == 0 {
        None
    } else if rows[0].guild_id == guild_id && rows[0].user_id == user_id {
        Some(rows[0])
    } else {
        find_member(rows.drop_first(), guild_id, user_id)
    }
}

/// The first row that makes `user_id` a member of guild `guild_id` says the
/// user manages the guild.
pub open spec fn manages(rows: Seq<GuildUser>, guild_id: u64, user_id: Identity) -> bool {
    match find_member(rows, guild_id, user_id) {
        Some(row) => row.guild_manager,
        None => false,
    }
}

/// A found member row is a row of the table, for that guild and user.
pub proof fn lemma_find_member(rows: Seq<GuildUser>, guild_id: u64, user_id: Identity)
    ensures
        find_member(rows, guild_id, user_id) matches Some(row) ==> rows.contains(row) && row.guild_id
            == guild_id && row.user_id == user_id,
        find_member(rows, guild_id, user_id) is None <==> !exists|i: int|
            0 <= i < rows.len() && (#[trigger] rows[i]).guild_id == guild_id && rows[i].user_id == user_id,
    decreases rows.len(),
{
    if rows.len() > 0 {
        lemma_find_member(rows.drop_first(), guild_id, user_id);
        if !(rows[0].guild_id == guild_id && rows[0].user_id == user_id) {
            if let Some(row) = find_member(rows, guild_id, user_id) {
                let k = choose|k: int| 0 <= k < rows.drop_first().len() && rows.drop_first()[k] == row;
                assert(rows[k + 1] == row);
            }
            if exists|i: int|
                0 <= i < rows.len() && (#[trigger] rows[i]).guild_id == guild_id && rows[i].user_id == user_id {
                let i = choose|i: int|
                    0 <= i < rows.len() && (#[trigger] rows[i]).guild_id == guild_id && rows[i].user_id == user_id;
                assert(rows.drop_first()[i - 1] == rows[i]);
            }
        } else {
            assert(rows.contains(rows[0]));
        }
    }
}

/// The first row, in table order, that makes `user_id` a member of guild
/// `guild_id`.
pub fn get_guild_user(rows: &Vec<GuildUser>, guild_id: u64, user_id: Identity) -> (r: Option<GuildUser>)
    ensures
        r == find_member(rows@, guild_id, user_id),
{
    let mut i: usize = 0;
    assert(rows@.subrange(0, rows.len() as int) =~= rows@);
    while i < rows.len()
        invariant
            i <= rows.len(),
            find_member(rows@, guild_id, user_id) == find_member(rows@.subrange(i as int, rows.len() as int), guild_id, user_id),
        decreases rows.len() - i,
    {
        let ghost rest = rows@.subrange(i as int, rows.len() as int);
        assert(rest.drop_first() =~= rows@.subrange(i + 1, rows.len() as int));
        if rows[i].guild_id == guild_id && rows[i].user_id == user_id {
            return Some(rows[i]);
        }
        i += 1;
    }
    None
}

/// Whether the sender manages guild `guild_id`: the first row that makes the
/// sender a member says so.
pub fn is_self_manager(rows: &Vec<GuildUser>, guild_id: u64, sender: Identity) -> (r: bool)
    ensures
        r == manages(rows@, guild_id, sender),
{
    match get_guild_user(rows, guild_id, sender) {
        Some(row) => row.guild_manager,
        None => false,
    }
}

/// A new guild: the guild row, once the table gave it id `new_id`, and the
/// row that makes the sender its manager.
pub fn create_guild(sender: Identity, guild_name: String, new_id: u64) -> (r: (Guild, GuildUser))
    ensures
        r.0.id == new_id,
        r.0.name@ == guild_name@,
        r.1 == (GuildUser { guild_id: new_id, user_id: sender, guild_manager: true }),
{
    let guild = Guild { id: new_id, name: guild_name };
    let member = GuildUser { guild_id: guild.id, user_id: sender, guild_manager: true };
    (guild, member)
}

/// Adding the user with a friend code to a guild: `guild` is the guild the
/// table finds under the requested id, `rows` the membership table and
/// `new_user` the identity of the user with the friend code, if any. The
/// sender must manage the guild. Returns the row to insert.
pub fn add_to_guild(
    guild: &Option<Guild>,
    rows: &Vec<GuildUser>,
    sender: Identity,
    new_user: Option<Identity>,
) -> (r: Result<GuildUser, Refusal>)
    ensures
        guild is None ==> r == Err::<GuildUser, Refusal>(Refusal::GuildNotFound),
        guild matches Some(g) ==> {
            let managed = exists|i: int|
                0 <= i < rows.len() && (#[trigger] rows@[i]).user_id == sender && rows@[i].guild_id == g.id
                    && rows@[i].guild_manager;
            &&& !managed ==> r == Err::<GuildUser, Refusal>(Refusal::GuildUserNotFound)
            &&& managed && new_user is None ==> r == Err::<GuildUser, Refusal>(Refusal::UserNotFound)
            &&& managed && new_user is Some ==> r == Ok::<GuildUser, Refusal>(
                GuildUser { guild_id: g.id, guild_manager: false, user_id: new_user->0 },
            )
        },
{
    let guild_id = match guild {
        Some(g) => g.id,
        None => {
            return Err(Refusal::GuildNotFound);
        },
    };
    let mut managed = false;
    let mut i: usize = 0;
    while i < rows.len()
        invariant
            i <= rows.len(),
            managed == exists|k: int|
                0 <= k < i && (#[trigger] rows@[k]).user_id == sender && rows@[k].guild_id == guild_id
                    && rows@[k].guild_manager,
        decreases rows.len() - i,
    {
        if rows[i].user_id == sender && rows[i].guild_id == guild_id && rows[i].guild_manager {
            managed = true;
        }
        i += 1;
    }
    if !managed {
        return Err(Refusal::GuildUserNotFound);
    }
    match new_user {
        Some(u) => Ok(GuildUser { guild_id, guild_manager: false, user_id: u }),
        None => Err(Refusal::UserNotFound),
    }
}

/// The sender leaving guild `guild_id`: the sender's member row to delete,
/// and whether the guild is to be deleted too because no member is left.
pub fn leave_guild(rows: &Vec<GuildUser>, guild_id: u64, sender: Identity) -> (r: Result<(GuildUser, bool), Refusal>)
    ensures
        find_member(rows@, guild_id, sender) is None ==> r == Err::<(GuildUser, bool), Refusal>(
            Refusal::GuildUserNotFound,
        ),
        find_member(rows@, guild_id, sender) matches Some(row) ==> r == Ok::<(GuildUser, bool), Refusal>(
            (row, forall|i: int| 0 <= i < rows.len() && (#[trigger] rows@[i]).guild_id == guild_id ==> rows@[i] == row),
        ),
{
    let row = match get_guild_user(rows, guild_id, sender) {
        Some(row) => row,
        None => {
            return Err(Refusal::GuildUserNotFound);
        },
    };
    let mut last = true;
    let mut i: usize = 0;
    while i < rows.len()
        invariant
            i <= rows.len(),
            last == forall|k: int| 0 <= k < i && (#[trigger] rows@[k]).guild_id == guild_id ==> rows@[k] == row,
        decreases rows.len() - i,
    {
        if rows[i].guild_id == guild_id && rows[i] != row {
            last = false;
        }
        i += 1;
    }
    Ok((row, last))
}

/// The sender kicking user `user_id` out of guild `guild_id`: refused to the
/// user themselves and to a sender who does not manage the guild. Returns
/// the member row to delete.
pub fn kick_user(rows: &Vec<GuildUser>, guild_id: u64, sender: Identity, user_id: Identity) -> (r: Result<GuildUser, Refusal>)
    ensures
        sender == user_id ==> r == Err::<GuildUser, Refusal>(Refusal::KickingSelf),
        sender != user_id && !manages(rows@, guild_id, sender) ==> r == Err::<GuildUser, Refusal>(
            Refusal::NotManager,
        ),
        sender != user_id && manages(rows@, guild_id, sender) ==> r == (match find_member(rows@, guild_id, user_id) {
            Some(row) => Ok::<GuildUser, Refusal>(row),
            None => Err::<GuildUser, Refusal>(Refusal::GuildUserNotFound),
        }),
{
    if sender == user_id {
        return Err(Refusal::KickingSelf);
    }
    if !is_self_manager(rows, guild_id, sender) {
        return Err(Refusal::NotManager);
    }
    match get_guild_user(rows, guild_id, user_id) {
        Some(row) => Ok(row),
        None => Err(Refusal::GuildUserNotFound),
    }
}

/// The sender making user `user_to_promote_id` a manager of guild
/// `guild_id`: refused to a sender who does not manage the guild. Returns the
/// member row to insert.
pub fn promote_to_guild_manager(
    rows: &Vec<GuildUser>,
    guild_id: u64,
    sender: Identity,
    user_to_promote_id: Identity,
) -> (r: Result<GuildUser, Refusal>)
    ensures
        !manages(rows@, guild_id, sender) ==> r == Err::<GuildUser, Refusal>(Refusal::NotManager),
        manages(rows@, guild_id, sender) ==> r == (match find_member(rows@, guild_id, user_to_promote_id) {
            Some(row) => Ok::<GuildUser, Refusal>(GuildUser { guild_manager: true, ..row }),
            None => Err::<GuildUser, Refusal>(Refusal::GuildUserNotFound),
        }),
{
    if !is_self_manager(rows, guild_id, sender) {
        return Err(Refusal::NotManager);
    }
    match get_guild_user(rows, guild_id, user_to_promote_id) {
        Some(row) => Ok(GuildUser { guild_manager: true, ..row }),
        None => Err(Refusal::GuildUserNotFound),
    }
}

/// The row that a new guild's founder gets makes them its manager, wherever
/// the table puts it among rows of other guilds.
pub proof fn lemma_founder_manages(rows: Seq<GuildUser>, k: int, guild_id: u64, sender: Identity)
    requires
        0 <= k <= rows.len(),
        forall|i: int| 0 <= i < rows.len() ==> (#[trigger] rows[i]).guild_id != guild_id,
    ensures
        manages(rows.insert(k, GuildUser { guild_id, user_id: sender, guild_manager: true }), guild_id, sender),
{
    let founder = GuildUser { guild_id, user_id: sender, guild_manager: true };
    let all = rows.insert(k, founder);
    lemma_find_member(all, guild_id, sender);
    assert(all[k] == founder);
    if let Some(row) = find_member(all, guild_id, sender) {
        let m = choose|m: int| 0 <= m < all.len() && all[m] == row;
        if m < k {
            assert(all[m] == rows[m]);
        } else if m > k {
            assert(all[m] == rows[m - 1]);
        }
    }
}

} // verus!
