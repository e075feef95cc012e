use rocket_session::config::{DEFAULT_COOKIE_LEN, DEFAULT_LIFESPAN};
use rocket_session::table::expiry_after;
use rocket_session::{SessionConfig, SessionFairing, SessionID, SessionTable};

fn config(lifespan: u64, len: usize) -> SessionConfig {
    SessionFairing::<u64>::new()
        .with_lifetime(lifespan)
        .with_cookie_len(len)
        .into_config()
}

fn table(lifespan: u64, now: u64) -> SessionTable<u64> {
    SessionTable::new(config(lifespan, 16), now).unwrap()
}

fn is_token(s: &str, len: usize) -> bool {
    s.chars().count() == len && s.chars().all(|c| c.is_ascii_alphanumeric())
}

fn increment(t: &mut SessionTable<u64>, id: &SessionID, now: u64) -> u64 {
    t.tap(id, now, |d: Option<u64>| {
        let v = d.unwrap_or_default() + 1;
        (v, v)
    })
}

fn data(t: &SessionTable<u64>, token: &str) -> Option<u64> {
    t.get(&token.to_string()).unwrap().data
}

fn expires(t: &SessionTable<u64>, token: &str) -> u64 {
    t.get(&token.to_string()).unwrap().expires
}

#[test]
fn default_settings() {
    let c = SessionConfig::default();
    assert_eq!(c.lifespan, 3_600_000);
    assert_eq!(c.lifespan, DEFAULT_LIFESPAN);
    assert_eq!(c.cookie_name, "rocket_session");
    assert_eq!(c.cookie_path, "/");
    assert_eq!(c.cookie_len, 16);
    assert_eq!(c.cookie_len, DEFAULT_COOKIE_LEN);
}

#[test]
fn builders_set_each_field() {
    let f = SessionFairing::<u64>::new()
        .with_lifetime(42)
        .with_cookie_name("sid".to_string())
        .with_cookie_len(8)
        .with_cookie_path("/app".to_string());
    let c = f.config();
    assert_eq!(c.lifespan, 42);
    assert_eq!(c.cookie_name, "sid");
    assert_eq!(c.cookie_len, 8);
    assert_eq!(c.cookie_path, "/app");
}

#[test]
fn zero_token_length_is_refused() {
    assert!(SessionTable::<u64>::new(config(10, 0), 0).is_none());
    assert!(SessionTable::<u64>::new(config(10, 1), 0).is_some());
}

#[test]
fn expiry_is_now_plus_lifespan_or_saturates() {
    assert_eq!(expiry_after(5, 10), 15);
    assert_eq!(expiry_after(0, 0), 0);
    assert_eq!(expiry_after(u64::MAX - 3, 10), u64::MAX);
    assert_eq!(expiry_after(u64::MAX - 10, 10), u64::MAX);
}

#[test]
fn new_token_has_configured_length_and_default_data() {
    for len in [1usize, 16, 40] {
        let mut t = SessionTable::<u64>::new(config(10, len), 0).unwrap();
        let id = t.resolve_or_create(None, 3).unwrap();
        assert!(is_token(id.as_str(), len));
        assert!(t.contains(&id.as_str().to_string()));
        assert_eq!(data(&t, id.as_str()), None);
        assert_eq!(expires(&t, id.as_str()), 13);
        let seen = t.tap(&id, 4, |d: Option<u64>| (7, d));
        assert_eq!(seen, None);
    }
}

#[test]
fn unknown_candidate_gets_a_new_token() {
    let mut t = table(10, 0);
    let id = t.resolve_or_create(Some("unknown".to_string()), 1).unwrap();
    assert_ne!(id.as_str(), "unknown");
    assert!(is_token(id.as_str(), 16));
    assert!(!t.contains(&"unknown".to_string()));
}

#[test]
fn known_live_token_is_kept_with_its_data() {
    let mut t = table(10, 0);
    let id = t.resolve_or_create(None, 0).unwrap();
    let token = id.as_str().to_string();
    assert_eq!(increment(&mut t, &id, 2), 1);
    let again = t.resolve_or_create(Some(token.clone()), 6).unwrap();
    assert_eq!(again.as_str(), token);
    assert_eq!(data(&t, &token), Some(1));
    assert_eq!(expires(&t, &token), 16);
    let third = t.resolve_or_create(Some(token.clone()), 9).unwrap();
    assert_eq!(third.as_str(), token);
    assert_eq!(data(&t, &token), Some(1));
    assert_eq!(expires(&t, &token), 19);
}

#[test]
fn expired_token_is_kept_and_its_data_reset() {
    let mut t = table(10, 0);
    let id = t.resolve_or_create(None, 0).unwrap();
    let token = id.as_str().to_string();
    assert_eq!(increment(&mut t, &id, 1), 1);
    assert_eq!(expires(&t, &token), 11);
    let again = t.resolve_or_create(Some(token.clone()), 11).unwrap();
    assert_eq!(again.as_str(), token);
    assert_eq!(data(&t, &token), None);
    assert_eq!(expires(&t, &token), 21);
}

#[test]
fn counter_resets_after_expiry() {
    let mut t = table(10, 0);
    let id = t.resolve_or_create(None, 0).unwrap();
    let token = id.as_str().to_string();
    assert_eq!(data(&t, &token), None);
    assert_eq!(increment(&mut t, &id, 5), 1);
    assert_eq!(expires(&t, &token), 15);
    assert_eq!(increment(&mut t, &id, 20), 1);
    assert_eq!(data(&t, &token), Some(1));
    assert_eq!(expires(&t, &token), 30);
}

#[test]
fn two_new_requests_get_distinct_tokens() {
    let mut t = table(10, 0);
    let a = t.resolve_or_create(None, 1).unwrap();
    let b = t.resolve_or_create(None, 2).unwrap();
    assert_ne!(a.as_str(), b.as_str());
    assert!(t.contains(&a.as_str().to_string()));
    assert!(t.contains(&b.as_str().to_string()));
}

#[test]
fn sweep_removes_exactly_the_expired() {
    let mut t = table(10, 0);
    let a = t.resolve_or_create(None, 0).unwrap();
    let b = t.resolve_or_create(None, 5).unwrap();
    let c = t.resolve_or_create(None, 8).unwrap();
    t.sweep(14);
    assert!(!t.contains(&a.as_str().to_string()));
    assert!(t.contains(&b.as_str().to_string()));
    assert!(t.contains(&c.as_str().to_string()));
    assert_eq!(expires(&t, b.as_str()), 15);
    assert_eq!(expires(&t, c.as_str()), 18);
    t.sweep(15);
    assert!(!t.contains(&b.as_str().to_string()));
    assert!(t.contains(&c.as_str().to_string()));
    t.sweep(18);
    assert!(!t.contains(&c.as_str().to_string()));
}

#[test]
fn sweep_runs_only_when_due_on_the_new_token_path() {
    let mut t = table(10, 0);
    let a = t.resolve_or_create(None, 0).unwrap();
    let ta = a.as_str().to_string();
    assert!(!t.is_sweep_due(10));
    assert!(t.is_sweep_due(11));
    // known token at a due time: no sweep
    let _ = t.resolve_or_create(Some(ta.clone()), 10).unwrap();
    let b = t.resolve_or_create(None, 10).unwrap();
    assert!(t.contains(&ta));
    // a is live until 20; b until 20: nothing expired yet at 15
    let _c = t.resolve_or_create(None, 15).unwrap();
    assert!(t.contains(&ta));
    assert!(t.contains(&b.as_str().to_string()));
    assert!(!t.is_sweep_due(25));
    // at 26 a and b have expired and a sweep is due
    let d = t.resolve_or_create(None, 26).unwrap();
    assert!(!t.contains(&ta));
    assert!(!t.contains(&b.as_str().to_string()));
    assert!(t.contains(&d.as_str().to_string()));
    assert!(!t.is_sweep_due(36));
}

#[test]
fn insert_fresh_refuses_a_taken_token() {
    let mut t = SessionTable::<u64>::new(config(10, 3), 0).unwrap();
    let tok = "ab1".to_string();
    assert!(t.insert_fresh(&tok, 0));
    assert!(!t.insert_fresh(&tok, 5));
    assert_eq!(expires(&t, "ab1"), 10);
    assert!(t.insert_fresh(&"ab2".to_string(), 1));
    assert_eq!(expires(&t, "ab2"), 11);
}

#[test]
fn tap_returns_the_callback_result() {
    let mut t = table(10, 0);
    let id = t.resolve_or_create(None, 0).unwrap();
    let r = t.tap(&id, 1, |d: Option<u64>| (41, d.unwrap_or(0) + 100));
    assert_eq!(r, 100);
    let r = t.tap(&id, 2, |d: Option<u64>| (d.unwrap(), d.unwrap() + 1));
    assert_eq!(r, 42);
    assert_eq!(data(&t, id.as_str()), Some(41));
}

#[test]
fn clear_and_renew() {
    let mut t = table(10, 0);
    let id = t.resolve_or_create(None, 0).unwrap();
    increment(&mut t, &id, 1);
    t.renew(&id, 4);
    assert_eq!(data(&t, id.as_str()), Some(1));
    assert_eq!(expires(&t, id.as_str()), 14);
    t.clear(&id, 6);
    assert_eq!(data(&t, id.as_str()), None);
    assert_eq!(expires(&t, id.as_str()), 16);
    t.renew(&id, 30);
    assert_eq!(expires(&t, id.as_str()), 40);
}

#[test]
fn session_id_round_trip() {
    let id = SessionID::new("abcXYZ09".to_string());
    assert_eq!(id.as_str(), "abcXYZ09");
    assert_eq!(id.as_string(), "abcXYZ09");
    assert_eq!(id.into_string(), "abcXYZ09".to_string());
}

#[test]
fn tokens_differ_between_draws() {
    let mut t = table(10, 0);
    let a = t.resolve_or_create(None, 0).unwrap();
    assert!(is_token(a.as_str(), 16));
    assert_ne!(a.as_str(), "0000000000000000");
}
