//! User accounts: authentication data, driven-route history, and the
//! stored weighting preference.

use vstd::prelude::*;

verus! {

/// The digest that hashing a password yields; determined by the
/// password's characters alone.
pub uninterp spec fn sha3_512_of(s: Seq<char>) -> Seq<u8>;

/// The preference every fresh or reset account starts from: all weight
/// on the second cost criterion.
pub open spec fn initial_preference_spec() -> Seq<u64> {
    seq![0u64, 1u64, 0u64]
}

/// Build the initial preference vector.
fn initial_preference() -> (r: Vec<u64>)
    ensures
        r@ == initial_preference_spec(),
{
    let mut r: Vec<u64> = Vec::new();
    r.push(0);
    r.push(1);
    r.push(0);
    proof {
        assert(r@ =~= initial_preference_spec());
    }
    r
}

/// One driven route kept in an account's history: the original edges
/// travelled together with their total cost vector and scalar cost.
pub struct RoutePath {
    pub edges: Vec<usize>,
    pub costs: Vec<u64>,
    pub total_cost: u64,
}

/// True exactly when the two byte strings hold the same bytes.
fn bytes_equal(a: &Vec<u8>, b: &Vec<u8>) -> (r: bool)
    ensures
        r == (a@ == b@),
{
    if a.len() != b.len() {
        return false;
    }
    let mut i: usize = 0;
    while i < a.len()
        invariant
            i <= a@.len(),
            a@.len() == b@.len(),
            forall|j: int| 0 <= j < i ==> a@[j] == b@[j],
        decreases a@.len() - i,
    {
        if a[i] != b[i] {
            return false;
        }
        i = i + 1;
    }
    proof {
        assert(a@ =~= b@);
    }
    true
}

/// The authentication record of one account: its name, the digest of
/// its password, and its current session token.
pub struct UserAuth {
    pub username: String,
    pub hash: Vec<u8>,
    pub token: String,
}

impl UserAuth {
    /// A fresh authentication record: the token is derived from the
    /// name and the password is stored only as its digest.
    pub fn new(username: String, password: String) -> (r: UserAuth)
        ensures
            r.username@ == username@,
            r.token@ == username@,
            r.hash@ == sha3_512_of(password@),
            r.hash@.len() == 64,
    {
        UserAuth {
            token: Self::generate_token(username.as_str()),
            username,
            hash: Self::hash_password(password.as_str()),
        }
    }

    /// Derive a fresh session token and install and return it.
    pub fn update_token(&mut self) -> (r: String)
        ensures
            final(self).token@ == old(self).username@,
            final(self).username == old(self).username,
            final(self).hash@ == old(self).hash@,
            r@ == old(self).username@,
    {
        self.token = Self::generate_token(self.username.as_str());
        self.token.clone()
    }

    /// Do the offered credentials match this account: same name, and a
    /// password whose digest equals the stored one?
    pub fn credentials_valid(&self, username: &str, password: &str) -> (r: bool)
        ensures
            r == (self.username@ == username@ && self.hash@ == sha3_512_of(password@)),
    {
        let password_hash = Self::hash_password(password);
        let name_matches = self.username == username.to_owned();
        let hash_matches = bytes_equal(&self.hash, &password_hash);
        name_matches && hash_matches
    }

    /// The session token an account name yields.
    pub fn generate_token(username: &str) -> (r: String)
        ensures
            r@ == username@,
    {
        username.to_owned()
    }

    /// The stored password digest, for inspection.
    pub fn password_hash(&self) -> (r: &Vec<u8>)
        ensures
            r@ == self.hash@,
    {
        &self.hash
    }

    /// Relies on sha3::Sha3_512 through the digest traits: the 64-byte
    /// SHA3-512 digest, a function of the input bytes alone.
    #[verifier::external_body]
    fn hash_password(password: &str) -> (r: Vec<u8>)
        ensures
            r@ == sha3_512_of(password@),
            r@.len() == 64,
    {
        let out = <sha3::Sha3_512 as sha3::Digest>::digest(password.as_bytes());
        out.to_vec()
    }
}

/// The whole state kept for one account: its authentication record, the
/// driven-route history, the route being driven, and the stored
/// weighting preference.
pub struct UserState {
    pub auth: UserAuth,
    pub driven_routes: Vec<RoutePath>,
    pub current_route: Option<RoutePath>,
    pub alpha: Vec<u64>,
}

impl UserState {
    /// A fresh account with no history and the initial preference.
    pub fn new(username: String, password: String) -> (r: UserState)
        ensures
            r.auth.username@ == username@,
            r.auth.token@ == username@,
            r.auth.hash@ == sha3_512_of(password@),
            r.auth.hash@.len() == 64,
            r.driven_routes@.len() == 0,
            r.current_route is None,
            r.alpha@ == initial_preference_spec(),
    {
        UserState {
            auth: UserAuth::new(username, password),
            driven_routes: Vec::new(),
            current_route: None,
            alpha: initial_preference(),
        }
    }

    /// Append a driven route to the history.
    pub fn add_route(&mut self, route: RoutePath)
        ensures
            final(self).driven_routes@ == old(self).driven_routes@.push(route),
            final(self).auth == old(self).auth,
            final(self).current_route == old(self).current_route,
            final(self).alpha == old(self).alpha,
    {
        self.driven_routes.push(route);
    }

    /// Replace the route currently being driven.
    pub fn update_route(&mut self, route: Option<RoutePath>)
        ensures
            final(self).current_route == route,
            final(self).auth == old(self).auth,
            final(self).driven_routes@ == old(self).driven_routes@,
            final(self).alpha == old(self).alpha,
    {
        self.current_route = route;
    }

    /// Remove the stored route at `route_id` from the history; reports
    /// whether such a route existed.
    pub fn delete_route(&mut self, route_id: usize) -> (r: bool)
        ensures
            r == (route_id < old(self).driven_routes@.len()),
            r ==> final(self).driven_routes@ == old(self).driven_routes@.remove(route_id as int),
            !r ==> final(self).driven_routes@ == old(self).driven_routes@,
            final(self).auth == old(self).auth,
            final(self).current_route == old(self).current_route,
            final(self).alpha == old(self).alpha,
    {
        if route_id < self.driven_routes.len() {
            self.driven_routes.remove(route_id);
            true
        } else {
            false
        }
    }

    /// Drop the account's history and preference, keeping only its
    /// authentication record.
    pub fn reset(&mut self)
        ensures
            final(self).auth == old(self).auth,
            final(self).driven_routes@.len() == 0,
            final(self).current_route is None,
            final(self).alpha@ == initial_preference_spec(),
    {
        self.driven_routes = Vec::new();
        self.current_route = None;
        self.alpha = initial_preference();
    }
}

} // verus!
