use vstd::prelude::*;

use crate::server::identity::Identity;

verus! {

/// A user of the server.
#[derive(Debug, Clone)]
pub struct User {
    pub identity: Identity,
    pub name: String,
    pub online: bool,
    pub avatar_id: i32,
    pub friend_code: i32,
}

/// A client connected: `user` is the row the table finds under the sender's
/// identity. A known user is marked online; an unknown one gets a new row,
/// online, named `new_name`, its friend code left for the table to assign.
/// Returns the row to write.
pub fn identity_connected(user: Option<User>, sender: Identity, new_name: String) -> (r: User)
    ensures
        match user {
            Some(u) => r.identity == u.identity && r.name@ == u.name@ && r.online && r.avatar_id == u.avatar_id
                && r.friend_code == u.friend_code,
            None => r.identity == sender && r.name@ == new_name@ && r.online && r.avatar_id == 0 && r.friend_code
                == 0,
        },
{
    match user {
        Some(u) => User { online: true, ..u },
        None => User { identity: sender, name: new_name, online: true, avatar_id: 0, friend_code: 0 },
    }
}

/// A client disconnected: a known user is marked offline. Returns the row to
/// write, or `None` for an unknown user.
pub fn identity_disconnected(user: Option<User>) -> (r: Option<User>)
    ensures
        user is None ==> r is None,
        user matches Some(u) ==> (r matches Some(v) && v.identity == u.identity && v.name@ == u.name@ && !v.online
            && v.avatar_id == u.avatar_id && v.friend_code == u.friend_code),
{
    match user {
        Some(u) => Some(User { online: false, ..u }),
        None => None,
    }
}

/// The sender renaming themselves to `new_name`. Returns the row to write,
/// or `None` for an unknown user.
pub fn rename_self(user: Option<User>, new_name: String) -> (r: Option<User>)
    ensures
        user is None ==> r is None,
        user matches Some(u) ==> (r matches Some(v) && v.identity == u.identity && v.name@ == new_name@ && v.online
            == u.online && v.avatar_id == u.avatar_id && v.friend_code == u.friend_code),
{
    match user {
        Some(u) => Some(User { name: new_name, ..u }),
        None => None,
    }
}

} // verus!
