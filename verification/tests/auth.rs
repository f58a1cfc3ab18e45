use rooms_scheduler::auth::{
    algorithm_from_name, extract_bearer_token, is_administrator_role, validate_claims,
    JwtAlgorithm, JwtVerificationError,
};
use rooms_scheduler::models::Claims;

fn claims(sub: &str, user_id: i64, rol: &str, token_type: &str) -> Claims {
    Claims {
        sub: sub.to_string(),
        exp: 2_000_000_000,
        user_id,
        rol: rol.to_string(),
        token_type: token_type.to_string(),
    }
}

#[test]
fn bearer_token_is_extracted_and_trimmed() {
    assert_eq!(extract_bearer_token("Bearer abc"), Some("abc".to_string()));
    assert_eq!(extract_bearer_token("bearer abc"), Some("abc".to_string()));
    assert_eq!(extract_bearer_token("BEARER  xyz "), Some("xyz".to_string()));
    assert_eq!(extract_bearer_token("Bearer  a b "), Some("a b".to_string()));
}

#[test]
fn bearer_token_rejects_other_schemes_and_empty_tokens() {
    assert_eq!(extract_bearer_token("Basic abc"), None);
    assert_eq!(extract_bearer_token("Bearer"), None);
    assert_eq!(extract_bearer_token("Bearer   "), None);
    assert_eq!(extract_bearer_token(""), None);
    assert_eq!(extract_bearer_token("Bearers abc"), None);
}

#[test]
fn bearer_token_trims_unicode_whitespace() {
    assert_eq!(extract_bearer_token("Bearer \u{0B}"), None);
    assert_eq!(extract_bearer_token("Bearer \u{0C}\u{A0}"), None);
    assert_eq!(extract_bearer_token("Bearer \u{A0}tok\u{2003}"), Some("tok".to_string()));
    assert_eq!(extract_bearer_token("Bearer \u{0B}x"), Some("x".to_string()));
    // Matches what the standard trim would leave behind.
    for h in ["Bearer \u{0B}", "Bearer \u{A0}tok\u{2003}", "Bearer  a b \u{3000}"] {
        let expected = h
            .split_once(' ')
            .map(|(_, t)| t.trim())
            .filter(|t| !t.is_empty())
            .map(|t| t.to_string());
        assert_eq!(extract_bearer_token(h), expected, "header {:?}", h);
    }
}

#[test]
fn valid_access_claims_pass() {
    assert!(validate_claims(&claims("user@example.com", 7, "administrator", "access")).is_ok());
}

#[test]
fn wrong_token_type_is_rejected_first() {
    match validate_claims(&claims("user@example.com", 7, "administrator", "refresh")) {
        Err(JwtVerificationError::InvalidTokenType) => {}
        _ => panic!("expected InvalidTokenType"),
    }
    match validate_claims(&claims("", 0, "", "refresh")) {
        Err(JwtVerificationError::InvalidTokenType) => {}
        _ => panic!("expected InvalidTokenType"),
    }
}

#[test]
fn missing_claims_are_rejected() {
    for c in [
        claims("", 7, "administrator", "access"),
        claims("user@example.com", 7, "", "access"),
        claims("user@example.com", 0, "administrator", "access"),
        claims("user@example.com", -3, "administrator", "access"),
    ] {
        match validate_claims(&c) {
            Err(JwtVerificationError::MissingClaims) => {}
            _ => panic!("expected MissingClaims"),
        }
    }
}

#[test]
fn algorithm_names_map_to_algorithms() {
    assert!(matches!(algorithm_from_name("HS256"), Some(JwtAlgorithm::HS256)));
    assert!(matches!(algorithm_from_name("HS384"), Some(JwtAlgorithm::HS384)));
    assert!(matches!(algorithm_from_name("HS512"), Some(JwtAlgorithm::HS512)));
    assert!(algorithm_from_name("RS256").is_none());
    assert!(algorithm_from_name("hs256").is_none());
    assert!(algorithm_from_name("").is_none());
}

#[test]
fn administrator_role_check_ignores_ascii_case() {
    assert!(is_administrator_role("administrator"));
    assert!(is_administrator_role("Administrator"));
    assert!(is_administrator_role("ADMINISTRATOR"));
    assert!(!is_administrator_role("admin"));
    assert!(!is_administrator_role("user"));
    assert!(!is_administrator_role("administrators"));
}
