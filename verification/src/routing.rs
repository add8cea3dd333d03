//! The decision cores of the request handlers: request data, token
//! extraction and account lookup. The transport around them (header
//! access, serialization, responses) stays outside the library and
//! hands these functions plain values.

use vstd::prelude::*;
use crate::user::UserState;

verus! {

/// A geographic position in fixed-point microdegrees.
pub struct Coordinate {
    pub lat: i64,
    pub lon: i64,
}

/// One routing request: a route identifier, the waypoints to visit in
/// order, and the weighting preference to route under.
pub struct FspRequest {
    pub id: usize,
    pub waypoints: Vec<Coordinate>,
    pub alpha: Vec<u64>,
}

/// The session token carried by a request's authorization header: the
/// header's value when it is present and non-empty, nothing otherwise.
pub fn extract_token<'a>(header_value: Option<&'a str>) -> (r: Option<&'a str>)
    ensures
        header_value is None ==> r is None,
        header_value matches Some(v) ==> (v@.len() == 0 ==> r is None),
        header_value matches Some(v) ==> (v@.len() > 0 ==> r == Some(v)),
{
    match header_value {
        None => None,
        Some(value) => {
            if value.is_empty() {
                None
            } else {
                Some(value)
            }
        },
    }
}

/// The account whose current session token equals `token`: the index of
/// the first such account, or nothing when no account matches.
pub fn find_user_index(users: &Vec<UserState>, token: &str) -> (r: Option<usize>)
    ensures
        r matches Some(i) ==> i < users@.len() && users@[i as int].auth.token@ == token@ && (forall|
            j: int,
        |
            0 <= j < i ==> (#[trigger] users@[j]).auth.token@ != token@),
        r is None ==> forall|j: int|
            0 <= j < users@.len() ==> (#[trigger] users@[j]).auth.token@ != token@,
{
    let mut i: usize = 0;
    while i < users.len()
        invariant
            i <= users@.len(),
            forall|j: int| 0 <= j < i ==> (#[trigger] users@[j]).auth.token@ != token@,
        decreases users@.len() - i,
    {
        if users[i].auth.token == token.to_owned() {
            return Some(i);
        }
        i = i + 1;
    }
    None
}


/// Core of the preference read: the stored preference of the account
/// carrying the token, or nothing when no account matches.
pub fn get_preference_core<'a>(users: &'a Vec<UserState>, token: &str) -> (r: Option<
    &'a Vec<u64>,
>)
    ensures
        r is Some <==> (exists|j: int|
            0 <= j < users@.len() && (#[trigger] users@[j]).auth.token@ == token@),
        r matches Some(p) ==> exists|j: int|
            0 <= j < users@.len() && (#[trigger] users@[j]).auth.token@ == token@ && p@
                == users@[j].alpha@,
{
    match find_user_index(users, token) {
        None => None,
        Some(i) => Some(&users[i].alpha),
    }
}

/// Core of the route listing: the driven-route history of the account
/// carrying the token, or nothing when no account matches.
pub fn get_routes_core<'a>(users: &'a Vec<UserState>, token: &str) -> (r: Option<
    &'a Vec<crate::user::RoutePath>,
>)
    ensures
        r is Some <==> (exists|j: int|
            0 <= j < users@.len() && (#[trigger] users@[j]).auth.token@ == token@),
        r matches Some(p) ==> exists|j: int|
            0 <= j < users@.len() && (#[trigger] users@[j]).auth.token@ == token@ && p@
                == users@[j].driven_routes@,
{
    match find_user_index(users, token) {
        None => None,
        Some(i) => Some(&users[i].driven_routes),
    }
}

/// Core of the preference update: when some account carries the token,
/// install the new preference there and report success; otherwise leave
/// every account unchanged.
pub fn set_preference_core(users: &mut Vec<UserState>, token: &str, new_alpha: Vec<u64>) -> (r:
    bool)
    ensures
        r == (exists|j: int|
            0 <= j < old(users)@.len() && (#[trigger] old(users)@[j]).auth.token@ == token@),
        !r ==> final(users)@ == old(users)@,
        r ==> exists|i: int|
            0 <= i < old(users)@.len() && (#[trigger] old(users)@[i]).auth.token@ == token@
                && final(users)@.len() == old(users)@.len() && final(users)@[i].auth == old(users)@[i].auth && final(users)@[i].alpha == new_alpha && (forall|j: int|
                0 <= j < old(users)@.len() && j != i ==> final(users)@[j] == #[trigger] old(users)@[j]),
{
    match find_user_index(users, token) {
        None => false,
        Some(i) => {
            let mut user = users.remove(i);
            user.alpha = new_alpha;
            users.insert(i, user);
            proof {
                assert forall|j: int|
                    0 <= j < old(users)@.len() && j != i implies final(users)@[j] == #[trigger] old(users)@[j] by {
                    if j < i {
                        assert(final(users)@[j] == old(users)@[j]);
                    } else {
                        assert(final(users)@[j] == old(users)@.remove(i as int)[j - 1]);
                        assert(old(users)@.remove(i as int)[j - 1] == old(users)@[j]);
                    }
                }
            }
            true
        },
    }
}

/// Core of the account reset: when some account carries the token, drop
/// its history and preference and report success; otherwise leave every
/// account unchanged.
pub fn reset_data_core(users: &mut Vec<UserState>, token: &str) -> (r: bool)
    ensures
        r == (exists|j: int|
            0 <= j < old(users)@.len() && (#[trigger] old(users)@[j]).auth.token@ == token@),
        !r ==> final(users)@ == old(users)@,
        r ==> exists|i: int|
            0 <= i < old(users)@.len() && (#[trigger] old(users)@[i]).auth.token@ == token@
                && final(users)@.len() == old(users)@.len() && final(users)@[i].auth == old(users)@[i].auth && final(users)@[i].driven_routes@.len() == 0 && final(users)@[i].current_route is None && final(users)@[i].alpha@
                == crate::user::initial_preference_spec() && (forall|j: int|
                0 <= j < old(users)@.len() && j != i ==> final(users)@[j] == #[trigger] old(users)@[j]),
{
    match find_user_index(users, token) {
        None => false,
        Some(i) => {
            let mut user = users.remove(i);
            user.reset();
            users.insert(i, user);
            proof {
                assert forall|j: int|
                    0 <= j < old(users)@.len() && j != i implies final(users)@[j] == #[trigger] old(users)@[j] by {
                    if j < i {
                        assert(final(users)@[j] == old(users)@[j]);
                    } else {
                        assert(final(users)@[j] == old(users)@.remove(i as int)[j - 1]);
                        assert(old(users)@.remove(i as int)[j - 1] == old(users)@[j]);
                    }
                }
            }
            true
        },
    }
}

/// Core of the route deletion: succeeds exactly when the first account
/// carrying the token exists and stores a route at `route_id`; then
/// that route alone is removed; otherwise every account is left as it
/// was.
pub fn delete_route_core(users: &mut Vec<UserState>, token: &str, route_id: usize) -> (r: bool)
    ensures
        r == (exists|i: int|
            0 <= i < old(users)@.len() && (#[trigger] old(users)@[i]).auth.token@ == token@ && (
            forall|j: int|
                0 <= j < i ==> (#[trigger] old(users)@[j]).auth.token@ != token@) && route_id < old(users)@[i].driven_routes@.len()),
        !r ==> final(users)@.len() == old(users)@.len() && (forall|n: int|
            0 <= n < old(users)@.len() ==> (#[trigger] final(users)@[n]).auth == old(users)@[n].auth && final(users)@[n].driven_routes@ == old(users)@[n].driven_routes@ && final(users)@[n].current_route == old(users)@[n].current_route && final(users)@[n].alpha == old(users)@[n].alpha),
        r ==> exists|i: int|
            0 <= i < old(users)@.len() && (#[trigger] old(users)@[i]).auth.token@ == token@
                && route_id < old(users)@[i].driven_routes@.len() && final(users)@.len() == old(users)@.len() && final(users)@[i].auth == old(users)@[i].auth && final(users)@[i].driven_routes@ == old(users)@[i].driven_routes@.remove(route_id as int) && (
            forall|j: int|
                0 <= j < old(users)@.len() && j != i ==> final(users)@[j] == #[trigger] old(users)@[j]),
{
    match find_user_index(users, token) {
        None => false,
        Some(i) => {
            let mut user = users.remove(i);
            let removed = user.delete_route(route_id);
            users.insert(i, user);
            proof {
                assert forall|j: int|
                    0 <= j < old(users)@.len() && j != i implies final(users)@[j] == #[trigger] old(users)@[j] by {
                    if j < i {
                        assert(final(users)@[j] == old(users)@[j]);
                    } else {
                        assert(final(users)@[j] == old(users)@.remove(i as int)[j - 1]);
                        assert(old(users)@.remove(i as int)[j - 1] == old(users)@[j]);
                    }
                }
                assert(final(users)@[i as int] == user);
                if !removed {
                    assert forall|n: int|
                        0 <= n < old(users)@.len() implies (#[trigger] final(users)@[n]).auth
                        == old(users)@[n].auth && final(users)@[n].driven_routes@ == old(users)@[n].driven_routes@ && final(users)@[n].current_route == old(users)@[n].current_route && final(users)@[n].alpha == old(users)@[n].alpha by {
                        if n != i {
                            assert(final(users)@[n] == old(users)@[n]);
                        }
                    }
                } else {
                    assert(old(users)@[i as int].auth.token@ == token@ && (forall|j: int|
                        0 <= j < i ==> (#[trigger] old(users)@[j]).auth.token@ != token@)
                        && route_id < old(users)@[i as int].driven_routes@.len());
                }
                if !removed && (exists|i2: int|
                    0 <= i2 < old(users)@.len() && (#[trigger] old(users)@[i2]).auth.token@
                        == token@ && (forall|j: int|
                        0 <= j < i2 ==> (#[trigger] old(users)@[j]).auth.token@ != token@)
                        && route_id < old(users)@[i2].driven_routes@.len()) {
                    let i2 = choose|i2: int|
                        0 <= i2 < old(users)@.len() && (#[trigger] old(users)@[i2]).auth.token@
                            == token@ && (forall|j: int|
                            0 <= j < i2 ==> (#[trigger] old(users)@[j]).auth.token@ != token@)
                            && route_id < old(users)@[i2].driven_routes@.len();
                    assert(!(i2 < i) && !(i < i2));
                    assert(false);
                }
            }
            removed
        },
    }
}

} // verus!
