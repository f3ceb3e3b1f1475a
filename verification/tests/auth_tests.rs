use poker_engine::auth::{
    claims_from, create_token, create_token_at, fault_message, verify_token, TokenFault,
    JWT_SECRET, TOKEN_LIFETIME_SECS,
};
use std::time::{SystemTime, UNIX_EPOCH};

fn now() -> i64 {
    SystemTime::now().duration_since(UNIX_EPOCH).unwrap().as_secs() as i64
}

#[test]
fn test_create_and_verify_token() {
    let player_id = "test_player";
    let game_id = "test_game";

    let token = create_token(player_id, game_id).unwrap();
    let claims = verify_token(&token).unwrap();

    assert_eq!(claims.player_id, player_id);
    assert_eq!(claims.game_id, game_id);
}

#[test]
fn test_invalid_token() {
    let result = verify_token("invalid_token");
    assert!(result.is_err());
}

#[test]
fn a_token_is_good_for_an_hour() {
    let before = now();
    let token = create_token("someone", "some game").unwrap();
    let after = now();
    let claims = verify_token(&token).unwrap();
    assert!(claims.exp >= before + 3600);
    assert!(claims.exp <= after + 3600);
    assert_eq!(TOKEN_LIFETIME_SECS, 3600);
}

#[test]
fn a_token_has_three_parts_and_depends_on_what_it_says() {
    let at = now();
    let token = create_token_at("someone", "some game", at).unwrap();
    assert_eq!(token.split('.').count(), 3);
    assert_ne!(token, "someone");
    assert_eq!(token, create_token_at("someone", "some game", at).unwrap());
    assert_ne!(token, create_token_at("someone else", "some game", at).unwrap());
    assert_ne!(token, create_token_at("someone", "other game", at).unwrap());
    assert_ne!(token, create_token_at("someone", "some game", at + 1).unwrap());
    let claims = verify_token(&token).unwrap();
    assert_eq!(claims.player_id, "someone");
    assert_eq!(claims.game_id, "some game");
    assert_eq!(claims.exp, at + 3600);
}

#[test]
fn a_token_that_has_run_out_is_found_bad() {
    let token = create_token_at("someone", "some game", now() - 2 * 3600).unwrap();
    assert_eq!(verify_token(&token).unwrap_err(), "Token expiré");
}

#[test]
fn a_token_cannot_be_issued_at_the_end_of_time() {
    assert_eq!(
        create_token_at("someone", "some game", i64::MAX - 3599).unwrap_err(),
        "Horodatage invalide"
    );
    assert!(create_token_at("someone", "some game", i64::MAX - 3600).is_ok());
}

#[test]
fn a_token_that_was_changed_is_found_bad() {
    let token = create_token("someone", "some game").unwrap();
    let mut parts: Vec<&str> = token.split('.').collect();
    let other = create_token("someone else", "some game").unwrap();
    let claims_of_other: Vec<&str> = other.split('.').collect();
    parts[1] = claims_of_other[1];
    let forged = parts.join(".");
    let fault = verify_token(&forged).unwrap_err();
    assert!(fault.starts_with("Erreur de validation du token: "));
    assert_eq!(verify_token("a.b").unwrap_err(), "Token invalide");
    assert_eq!(verify_token("").unwrap_err(), "Token invalide");
}

#[test]
fn faults_have_their_messages() {
    assert_eq!(fault_message(TokenFault::Expired), "Token expiré");
    assert_eq!(fault_message(TokenFault::Invalid), "Token invalide");
    assert_eq!(
        fault_message(TokenFault::Other("InvalidSignature".to_string())),
        "Erreur de validation du token: InvalidSignature"
    );
    assert_eq!(JWT_SECRET, "poker_secret_key_change_in_production");
}

#[test]
fn claims_need_all_three_fields() {
    let read = Ok((Some("p".to_string()), Some("g".to_string()), Some(7)));
    let claims = claims_from(read).unwrap();
    assert_eq!(claims.player_id, "p");
    assert_eq!(claims.game_id, "g");
    assert_eq!(claims.exp, 7);
    assert_eq!(
        claims_from(Ok((None, Some("g".to_string()), Some(7)))).unwrap_err(),
        "Erreur de validation du token: JSON error"
    );
    assert_eq!(
        claims_from(Ok((Some("p".to_string()), None, Some(7)))).unwrap_err(),
        "Erreur de validation du token: JSON error"
    );
    assert_eq!(
        claims_from(Ok((Some("p".to_string()), Some("g".to_string()), None))).unwrap_err(),
        "Erreur de validation du token: JSON error"
    );
    assert_eq!(claims_from(Err(TokenFault::Expired)).unwrap_err(), "Token expiré");
}
