use acmegen::{check_claims, verify, Claims, Record, Verdict};

fn claims() -> Claims {
    Claims {
        allowed_origins: vec!["10.0.0.1".to_string()],
        domain: "acme.example.org".to_string(),
        subdomain: "host1".to_string(),
        username: "alice".to_string(),
    }
}

fn record(sub: &str) -> Record {
    Record { subdomain: sub.to_string(), txt: "token".to_string() }
}

#[test]
fn accepts_matching_claims() {
    let user = "alice".to_string();
    let domain = "acme.example.org".to_string();
    assert!(verify(&record("host1"), &user, &domain, &Some(claims())));
    assert_eq!(check_claims(&record("host1"), &user, &domain, &Some(claims())), Verdict::Accepted);
}

#[test]
fn each_condition_flips_result() {
    let user = "alice".to_string();
    let domain = "acme.example.org".to_string();
    assert!(!verify(&record("host1"), &user, &domain, &None));
    assert!(!verify(&record("host1"), &"bob".to_string(), &domain, &Some(claims())));
    assert!(!verify(&record("host1"), &user, &"other.org".to_string(), &Some(claims())));
    assert!(!verify(&record("host2"), &user, &domain, &Some(claims())));
}

#[test]
fn verdicts_tell_failures_apart() {
    let user = "alice".to_string();
    let domain = "acme.example.org".to_string();
    assert_eq!(check_claims(&record("host1"), &user, &domain, &None), Verdict::InvalidToken);
    assert_eq!(
        check_claims(&record("host2"), &user, &domain, &Some(claims())),
        Verdict::ClaimMismatch
    );
}

#[test]
fn allowed_origins_are_not_enforced() {
    let mut c = claims();
    c.allowed_origins = vec![];
    assert!(verify(&record("host1"), &"alice".to_string(), &"acme.example.org".to_string(), &Some(c)));
}
