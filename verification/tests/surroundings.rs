use fizap::auth::{
    bearer_token, check_login, judge_login, AccountDetails, AuthenticationData,
    AuthenticationExtractor, AuthenticationFactory, Claims,
};
use fizap::config::CustomError;
use fizap::item::ItemState;
use fizap::layout::{count_tracks, LayoutProbe};
use fizap::store::{load_item, resolve_batch, set_total_count, Store};
use fizap::visibility::VisibilityTracker;

#[test]
fn tracks_are_counted_between_spaces() {
    assert_eq!(count_tracks("100px 100px 100px"), 3);
    assert_eq!(count_tracks("240px"), 1);
    assert_eq!(count_tracks("none"), 1);
    assert_eq!(count_tracks(""), 1);
    assert_eq!(count_tracks("1fr 2fr"), 2);
    assert_eq!(count_tracks("a  b"), 3);
    assert_eq!(count_tracks(" "), 2);
}

#[test]
fn probe_starts_with_one_cell_per_row() {
    let probe = LayoutProbe::new();
    assert_eq!(probe.row_size(), 1);
}

#[test]
fn probe_keeps_the_last_size_when_measuring_fails() {
    let mut probe = LayoutProbe::new();
    assert_eq!(probe.measure(None), 1);
    assert_eq!(probe.measure(Some("10px 10px 10px 10px")), 4);
    assert_eq!(probe.row_size(), 4);
    assert_eq!(probe.measure(None), 4);
    assert_eq!(probe.measure(Some("10px 10px")), 2);
    assert_eq!(probe.measure(None), 2);
}

#[test]
fn tracker_fires_once_per_entry() {
    let mut tracker = VisibilityTracker::new(23);
    assert_eq!(tracker.index, 23);
    assert!(!tracker.observe(false));
    assert!(tracker.observe(true));
    assert!(!tracker.observe(true));
    assert!(!tracker.observe(true));
    assert!(!tracker.observe(false));
    assert!(tracker.observe(true));
    assert!(!tracker.observe(false));
    assert!(!tracker.observe(false));
    assert!(tracker.observe(true));
}

#[test]
fn tracker_is_silent_after_stop() {
    let mut tracker = VisibilityTracker::new(0);
    assert!(tracker.observe(true));
    tracker.observe(false);
    tracker.stop();
    assert!(!tracker.observing);
    assert!(!tracker.observe(true));
    assert!(!tracker.observe(false));
    assert!(!tracker.observe(true));
    assert!(!tracker.intersecting);
}

#[test]
fn trackers_do_not_share_state() {
    let mut a = VisibilityTracker::new(1);
    let mut b = VisibilityTracker::new(2);
    assert!(a.observe(true));
    assert!(b.observe(true));
    assert!(!a.observe(true));
    b.stop();
    assert!(!a.observe(false));
    assert!(a.observe(true));
}

#[test]
fn bearer_token_is_taken_from_the_header() {
    assert_eq!(bearer_token("Bearer abc.def.ghi"), Some(String::from("abc.def.ghi")));
    assert_eq!(bearer_token("Bearer "), None);
    assert_eq!(bearer_token(""), None);
    assert_eq!(bearer_token("abc"), None);
    assert_eq!(bearer_token("Basic dXNlcg=="), None);
    assert_eq!(bearer_token("bearer abc"), None);
    assert_eq!(bearer_token("Bearer Bearer x"), Some(String::from("x")));
    assert_eq!(bearer_token("xBearer y"), Some(String::from("xy")));
    assert_eq!(bearer_token("Bearer  x"), Some(String::from(" x")));
}

#[test]
fn credential_is_empty_without_a_token() {
    assert!(!AuthenticationData::new().has_token());
    assert_eq!(AuthenticationData::new().token(), "");
    assert!(!AuthenticationData::from_header(None).has_token());
    assert!(!AuthenticationData::from_header(Some("Bearer ")).has_token());
    assert!(!AuthenticationData::from_header(Some("Token abc")).has_token());
    let data = AuthenticationData::from_header(Some("Bearer abc"));
    assert!(data.has_token());
    assert_eq!(data.token(), "abc");
}

#[test]
fn token_can_be_replaced() {
    let mut data = AuthenticationData::new();
    data.update_token(String::from("first"));
    assert_eq!(data.token(), "first");
    data.update_token(String::from("second"));
    assert_eq!(data.token(), "second");
}

#[test]
fn middleware_reads_each_request_afresh() {
    let middleware = AuthenticationFactory::new().new_transform(7u8);
    assert_eq!(middleware.service, 7);
    assert_eq!(middleware.credential(Some("Bearer abc")).token(), "abc");
    assert_eq!(middleware.credential(None).token(), "");
}

#[test]
fn caller_without_identity_is_turned_away() {
    assert_eq!(
        AuthenticationExtractor::from_identity(None).map(|who| who.0),
        Err(CustomError::JWTError)
    );
    let who = AuthenticationExtractor::from_identity(Some(String::from("64b0"))).expect("admitted");
    assert_eq!(who.id(), "64b0");
}

#[test]
fn login_needs_account_and_matching_password() {
    assert_eq!(judge_login(true, Some(true)), Ok(()));
    assert_eq!(judge_login(true, Some(false)), Err(CustomError::LoginError));
    assert_eq!(judge_login(true, None), Err(CustomError::LoginError));
    assert_eq!(judge_login(false, Some(true)), Err(CustomError::LoginError));
    assert_eq!(judge_login(false, None), Err(CustomError::LoginError));
}

#[test]
fn login_is_checked_against_the_stored_hash() {
    let stored = bcrypt::hash("correct horse", 4).expect("a hash");
    assert_eq!(check_login(Some(&stored), "correct horse"), Ok(()));
    assert_eq!(check_login(Some(&stored), "battery staple"), Err(CustomError::LoginError));
    assert_eq!(check_login(Some(&stored), &stored), Err(CustomError::LoginError));
    assert_eq!(check_login(Some("correct horse"), "correct horse"), Err(CustomError::LoginError));
    assert_eq!(check_login(Some(""), ""), Err(CustomError::LoginError));
    assert_eq!(check_login(None, "correct horse"), Err(CustomError::LoginError));
}

#[test]
fn stored_account_holds_a_hash_of_the_password() {
    let account = AccountDetails {
        name: String::from("Ada"),
        email: String::from("ada@example.org"),
        password: String::from("engine"),
    };
    let stored = account.secured().expect("a hash");
    assert_eq!(stored.name, "Ada");
    assert_eq!(stored.email, "ada@example.org");
    assert_ne!(stored.password, "engine");
    assert_eq!(check_login(Some(&stored.password), "engine"), Ok(()));
    assert_eq!(check_login(Some(&stored.password), "Engine"), Err(CustomError::LoginError));
}

#[test]
fn errors_carry_status_and_message() {
    assert_eq!(CustomError::LoginError.status_code(), 401);
    assert_eq!(CustomError::JWTError.status_code(), 401);
    assert_eq!(CustomError::MissingBody.status_code(), 400);
    assert_eq!(CustomError::MissingPath.status_code(), 404);
    assert_eq!(CustomError::OutOfRange.status_code(), 416);
    assert_eq!(CustomError::LoginError.message(), "Invalid credentials");
    assert_eq!(CustomError::JWTError.message(), "Invalid JWT");
    assert_eq!(CustomError::MissingBody.message(), "Request is missing a body");
    assert_eq!(CustomError::MissingPath.message(), "Path not found");
    assert_eq!(CustomError::OutOfRange.message(), "Index out of range");
}

#[test]
fn probe_publishes_the_row_size() {
    let mut store = Store::new();
    set_total_count(12, &mut store);
    let mut probe = LayoutProbe::new();
    assert_eq!(probe.publish(None, &mut store), 1);
    assert_eq!(store.row_size(), 1);
    assert_eq!(probe.publish(Some("1fr 1fr 1fr 1fr"), &mut store), 4);
    assert_eq!(store.row_size(), 4);
    let batch = load_item(5, &mut store).expect("a batch goes out");
    assert_eq!(batch.request.indices, vec![4, 5, 6, 7]);
    let pairs = (4..8).map(|i| (format!("f{}", i), String::new())).collect();
    resolve_batch(batch.ticket, &pairs, &mut store);
    assert_eq!(probe.publish(Some("1fr 1fr 1fr"), &mut store), 3);
    assert_eq!(probe.publish(None, &mut store), 3);
    assert_eq!(store.row_size(), 3);
    for i in 4..8 {
        assert_eq!(store.state_of(i), ItemState::Loaded);
        assert_eq!(store.item(i).expect("the cell exists").name, format!("f{}", i));
    }
    let next = load_item(8, &mut store).expect("a batch goes out");
    assert_eq!(next.request.indices, vec![8]);
}

#[test]
fn tracker_reports_to_the_coordinator() {
    let mut store = Store::new();
    set_total_count(50, &mut store);
    let mut probe = LayoutProbe::new();
    probe.publish(Some("a b c d e f g h i j"), &mut store);
    let mut first = VisibilityTracker::new(23);
    let mut second = VisibilityTracker::new(25);
    assert!(first.report(false, &mut store).is_none());
    let batch = first.report(true, &mut store).expect("a batch goes out");
    assert_eq!(batch.request.indices, (20..30).collect::<Vec<u32>>());
    assert_eq!(batch.request.count, 50);
    assert!(first.report(true, &mut store).is_none());
    assert!(second.report(true, &mut store).is_none());
    assert_eq!(store.in_flight_count(), 10);
    first.report(false, &mut store);
    assert!(first.report(true, &mut store).is_none());
    first.stop();
    assert!(first.report(true, &mut store).is_none());
}

#[test]
fn token_expires_after_the_given_time() {
    let claims = Claims::expiring(String::from("64b0"), 1_700_000_000, 3600).expect("in range");
    assert_eq!(claims.id, "64b0");
    assert_eq!(claims.exp, 1_700_003_600);
    assert_eq!(Claims::expiring(String::new(), 10, -10).expect("in range").exp, 0);
    assert!(Claims::expiring(String::new(), 10, -11).is_none());
    assert!(Claims::expiring(String::new(), i64::MAX, 1).is_none());
    assert!(Claims::expiring(String::new(), i64::MIN, -1).is_none());
}

#[test]
fn account_is_stored_with_the_given_hash() {
    let account = AccountDetails {
        name: String::from("Ada"),
        email: String::from("ada@example.org"),
        password: String::from("engine"),
    };
    assert!(account.stored_with(None).is_none());
    let stored = account.stored_with(Some(String::from("$2b$04$x"))).expect("a hash was given");
    assert_eq!(stored.name, "Ada");
    assert_eq!(stored.email, "ada@example.org");
    assert_eq!(stored.password, "$2b$04$x");
}
