use bernard::fetch::auth::{AccessToken, Claims, RefreshToken, Scope};
use bernard::fetch::{FetchBuilder, Fetcher};
use bernard::Account;

fn account() -> Account {
    Account {
        client_email: "sa@example.iam.gserviceaccount.com".to_string(),
        private_key: "SECRET-REDACTED".to_string(),
    }
}

#[test]
fn a_scope_keeps_each_permission_once_in_order() {
    let scope = Scope::builder().scope("b").scope("a").scope("b").scope("c").build();
    assert_eq!(scope.joined(), "b a c");
    assert_eq!(scope.lifetime(), 3600);
    assert_eq!(Scope::default().joined(), "");
    assert_eq!(Scope::builder().scope("only").lifetime(60).build().joined(), "only");
    assert_eq!(Scope::builder().scope("only").lifetime(60).build().lifetime(), 60);
}

#[test]
fn claims_expire_when_the_lifetime_is_over() {
    let scope = Scope::builder().scope("read").scope("write").lifetime(1800).build();
    let claims = Claims::at("me@example.com", &scope, 1_600_000_000).unwrap();
    assert_eq!(claims.iss, "me@example.com");
    assert_eq!(claims.scope, "read write");
    assert_eq!(claims.aud, "https://oauth2.googleapis.com/token");
    assert_eq!(claims.iat, 1_600_000_000);
    assert_eq!(claims.exp, 1_600_001_800);
    assert!(Claims::at("me", &scope, i64::MAX - 1799).is_none());
    assert_eq!(Claims::at("me", &scope, i64::MAX - 1800).unwrap().exp, i64::MAX);
}

#[test]
fn claims_issued_now_expire_a_lifetime_later() {
    let scope = Scope::builder().scope("read").build();
    let claims = Claims::new("me@example.com", &scope).unwrap();
    assert_eq!(claims.exp, claims.iat + 3600);
    // the clock is read, not made up: the year is past 2020
    assert!(claims.iat > 1_577_836_800);
    // and it shows a time that a 32-bit count of days can hold
    assert!(claims.iat <= (i32::MAX as i64 - 719_163) * 86_400 + u32::MAX as i64);
    assert_eq!(claims.iss, "me@example.com");
    assert_eq!(claims.scope, "read");
    // a lifetime that no time of the clock can overflow is always served
    let long = Scope::builder().lifetime(i64::MAX / 2).build();
    let claims = Claims::new("me", &long).unwrap();
    assert_eq!(claims.exp, claims.iat + i64::MAX / 2);
}

#[test]
fn a_cached_token_is_used_until_ten_seconds_before_it_expires() {
    let mut cache = RefreshToken::new(Scope::builder().scope("read").build());
    assert!(cache.access_token_at(0).is_none());
    assert!(cache.access_token().is_none());
    cache.refresh(AccessToken { expiry: 1000, token: "t1".to_string() });
    assert_eq!(cache.access_token_at(0).unwrap().token, "t1");
    assert_eq!(cache.access_token_at(989).unwrap().token, "t1");
    assert_eq!(cache.access_token_at(989).unwrap().expiry, 1000);
    assert!(cache.access_token_at(990).is_none());
    assert!(cache.access_token_at(1000).is_none());
    assert!(cache.access_token_at(i64::MAX).is_none());
    // long expired by the clock of today
    assert!(cache.access_token().is_none());
    cache.refresh(AccessToken { expiry: i64::MIN, token: "t0".to_string() });
    assert!(cache.access_token().is_none());
    cache.refresh(AccessToken { expiry: i64::MAX, token: "t2".to_string() });
    assert_eq!(cache.access_token_at(990).unwrap().token, "t2");
    assert_eq!(cache.access_token().unwrap().token, "t2");
    assert_eq!(cache.access_token().unwrap().expiry, i64::MAX);
    assert!(cache.access_token_at(i64::MAX - 10).is_none());
    assert_eq!(cache.access_token_at(i64::MAX - 11).unwrap().token, "t2");
}

#[test]
fn a_fetcher_asks_to_read_drives_for_an_hour() {
    let mut fetcher = Fetcher::new(account());
    assert!(fetcher.proxy().is_none());
    assert_eq!(fetcher.account().client_email, "sa@example.iam.gserviceaccount.com");
    let claims = fetcher.claims(100).unwrap();
    assert_eq!(claims.iss, "sa@example.iam.gserviceaccount.com");
    assert_eq!(claims.scope, "https://www.googleapis.com/auth/drive.readonly");
    assert_eq!(claims.exp, 3700);
    assert!(fetcher.access_token(100).is_none());
    fetcher.store_token(AccessToken { expiry: claims.exp, token: "bearer".to_string() });
    assert_eq!(fetcher.access_token(100).unwrap().token, "bearer");
    assert!(fetcher.access_token(3690).is_none());
}

#[test]
fn a_fetch_builder_keeps_the_proxy() {
    let fetcher = FetchBuilder::new(account()).proxy("http://localhost:8080").build();
    assert_eq!(fetcher.proxy().as_deref(), Some("http://localhost:8080"));
    let fetcher = Fetcher::builder(account()).build();
    assert!(fetcher.proxy().is_none());
}
