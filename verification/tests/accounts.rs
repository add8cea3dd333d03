use ch_router::routing::{delete_route_core, extract_token, find_user_index, get_preference_core, get_routes_core, reset_data_core, set_preference_core};
use ch_router::user::{RoutePath, UserAuth, UserState};

#[test]
fn fresh_account_starts_clean() {
    let u = UserState::new(String::from("ada"), String::from("secret"));
    assert_eq!(u.auth.username, "ada");
    assert_eq!(u.auth.token, "ada");
    assert!(u.driven_routes.is_empty());
    assert!(u.current_route.is_none());
    assert_eq!(u.alpha, vec![0, 1, 0]);
}

#[test]
fn reset_keeps_only_the_auth_record() {
    let mut u = UserState::new(String::from("ada"), String::from("secret"));
    u.driven_routes.push(RoutePath { edges: vec![0, 1], costs: vec![1, 2, 3], total_cost: 6 });
    u.alpha = vec![9, 9, 9];
    u.reset();
    assert!(u.driven_routes.is_empty());
    assert!(u.current_route.is_none());
    assert_eq!(u.alpha, vec![0, 1, 0]);
    assert_eq!(u.auth.username, "ada");
}

#[test]
fn credentials_match_only_the_original_pair() {
    let auth = UserAuth::new(String::from("ada"), String::from("secret"));
    assert!(auth.credentials_valid("ada", "secret"));
    assert!(!auth.credentials_valid("ada", "wrong"));
    assert!(!auth.credentials_valid("bob", "secret"));
}

#[test]
fn password_is_stored_as_a_sha3_512_digest() {
    // the stored digest is 64 bytes and is not the password itself
    let auth = UserAuth::new(String::from("ada"), String::from("pw"));
    assert_eq!(auth.password_hash().len(), 64);
    assert_ne!(auth.password_hash().as_slice(), "pw".as_bytes());
    // the same password always hashes to the same digest
    let again = UserAuth::new(String::from("ada"), String::from("pw"));
    assert_eq!(auth.password_hash(), again.password_hash());
    // a different password hashes differently
    let other = UserAuth::new(String::from("ada"), String::from("pw2"));
    assert_ne!(auth.password_hash(), other.password_hash());
}

#[test]
fn update_token_rederives_from_the_username() {
    let mut auth = UserAuth::new(String::from("ada"), String::from("secret"));
    auth.token = String::from("stale");
    let fresh = auth.update_token();
    assert_eq!(fresh, "ada");
    assert_eq!(auth.token, "ada");
}

#[test]
fn token_extraction_drops_missing_and_empty_headers() {
    assert_eq!(extract_token(None), None);
    assert_eq!(extract_token(Some("")), None);
    assert_eq!(extract_token(Some("tok-1")), Some("tok-1"));
}

#[test]
fn user_lookup_finds_the_matching_token() {
    let users = vec![
        UserState::new(String::from("ada"), String::from("a")),
        UserState::new(String::from("bob"), String::from("b")),
    ];
    assert_eq!(find_user_index(&users, "bob"), Some(1));
    assert_eq!(find_user_index(&users, "ada"), Some(0));
    assert_eq!(find_user_index(&users, "eve"), None);
}

#[test]
fn route_history_can_grow_and_shrink() {
    let mut u = UserState::new(String::from("ada"), String::from("a"));
    u.add_route(RoutePath { edges: vec![1], costs: vec![1, 0, 0], total_cost: 1 });
    u.add_route(RoutePath { edges: vec![2], costs: vec![2, 0, 0], total_cost: 2 });
    u.update_route(Some(RoutePath { edges: vec![3], costs: vec![3, 0, 0], total_cost: 3 }));
    assert_eq!(u.driven_routes.len(), 2);
    assert!(u.current_route.is_some());
    assert!(u.delete_route(0));
    assert_eq!(u.driven_routes.len(), 1);
    assert_eq!(u.driven_routes[0].total_cost, 2);
    assert!(!u.delete_route(5));
}

#[test]
fn preference_handlers_touch_only_the_matching_account() {
    let mut users = vec![
        UserState::new(String::from("ada"), String::from("a")),
        UserState::new(String::from("bob"), String::from("b")),
    ];
    assert!(set_preference_core(&mut users, "bob", vec![7, 8, 9]));
    assert_eq!(users[1].alpha, vec![7, 8, 9]);
    assert_eq!(users[0].alpha, vec![0, 1, 0]);
    assert_eq!(get_preference_core(&users, "bob"), Some(&vec![7, 8, 9]));
    assert_eq!(get_preference_core(&users, "eve"), None);
    assert!(!set_preference_core(&mut users, "eve", vec![1, 1, 1]));
    assert!(reset_data_core(&mut users, "bob"));
    assert_eq!(users[1].alpha, vec![0, 1, 0]);
}

#[test]
fn route_deletion_handler_needs_token_and_route() {
    let mut users = vec![UserState::new(String::from("ada"), String::from("a"))];
    users[0].driven_routes.push(RoutePath { edges: vec![4], costs: vec![4, 0, 0], total_cost: 4 });
    assert!(!delete_route_core(&mut users, "eve", 0));
    assert!(!delete_route_core(&mut users, "ada", 3));
    assert!(delete_route_core(&mut users, "ada", 0));
    assert!(users[0].driven_routes.is_empty());
}

#[test]
fn route_listing_requires_a_known_token() {
    let mut users = vec![UserState::new(String::from("ada"), String::from("a"))];
    assert!(get_routes_core(&users, "eve").is_none());
    users[0].driven_routes.push(RoutePath { edges: vec![7], costs: vec![1, 1, 1], total_cost: 3 });
    let routes = get_routes_core(&users, "ada").unwrap();
    assert_eq!(routes.len(), 1);
    assert_eq!(routes[0].edges, vec![7]);
}
