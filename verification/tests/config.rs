use rooms_scheduler::config::{load_env, parse_u32};

#[test]
fn defaults_apply_when_nothing_is_set() {
    let c = load_env(None, None, None, None, None, None);
    assert_eq!(c.port, "3000");
    assert_eq!(c.jwt_secret, "default_secret");
    assert_eq!(c.jwt_refresh_secret_key, "default_refresh_secret");
    assert_eq!(c.jwt_algorithm, "HS256");
    assert_eq!(c.jwt_expire_minutes, 60);
    assert_eq!(c.jwt_refresh_expire_days, 7);
}

#[test]
fn explicit_values_are_kept() {
    let c = load_env(
        Some("8080".to_string()),
        Some("s3cr3t".to_string()),
        Some("r3fr3sh".to_string()),
        Some("HS512".to_string()),
        Some("15".to_string()),
        Some("30".to_string()),
    );
    assert_eq!(c.port, "8080");
    assert_eq!(c.jwt_secret, "s3cr3t");
    assert_eq!(c.jwt_refresh_secret_key, "r3fr3sh");
    assert_eq!(c.jwt_algorithm, "HS512");
    assert_eq!(c.jwt_expire_minutes, 15);
    assert_eq!(c.jwt_refresh_expire_days, 30);
}

#[test]
fn unparsable_numbers_fall_back_to_defaults() {
    let c = load_env(
        None,
        None,
        None,
        None,
        Some("soon".to_string()),
        Some("".to_string()),
    );
    assert_eq!(c.jwt_expire_minutes, 60);
    assert_eq!(c.jwt_refresh_expire_days, 7);
}

#[test]
fn parse_accepts_plain_and_signed_decimals() {
    assert_eq!(parse_u32("0"), Some(0));
    assert_eq!(parse_u32("60"), Some(60));
    assert_eq!(parse_u32("+70"), Some(70));
    assert_eq!(parse_u32("007"), Some(7));
    assert_eq!(parse_u32("4294967295"), Some(u32::MAX));
}

#[test]
fn parse_rejects_garbage_and_overflow() {
    assert_eq!(parse_u32(""), None);
    assert_eq!(parse_u32("+"), None);
    assert_eq!(parse_u32("-1"), None);
    assert_eq!(parse_u32("12a"), None);
    assert_eq!(parse_u32(" 12"), None);
    assert_eq!(parse_u32("4294967296"), None);
    assert_eq!(parse_u32("99999999999999999999"), None);
}

#[test]
fn parse_matches_the_standard_parser() {
    for s in ["0", "60", "+70", "007", "4294967295", "", "+", "-1", "12a", " 12", "4294967296"] {
        assert_eq!(parse_u32(s), s.parse::<u32>().ok(), "input {:?}", s);
    }
}
