//! Tokens: signed, good for an hour, and bound to one player in one game.
//!
//! A token is issued to a player who takes a seat. Whoever shows it may act
//! for that player in that game until it runs out. There is no other check of
//! who a player is.

use vstd::prelude::*;

verus! {

/// The secret with which tokens are signed.
pub const JWT_SECRET: &'static str = "poker_secret_key_change_in_production";

/// The seconds for which a token is good.
pub const TOKEN_LIFETIME_SECS: i64 = 3600;

/// What a token says: who plays, in which game, and until when it holds, in
/// seconds since 1970.
#[derive(Debug)]
pub struct Claims {
    pub player_id: String,
    pub game_id: String,
    pub exp: i64,
}

/// What a token says, as the rules see it.
pub struct ClaimsView {
    pub player_id: Seq<char>,
    pub game_id: Seq<char>,
    pub exp: i64,
}

impl View for Claims {
    type V = ClaimsView;

    open spec fn view(&self) -> ClaimsView {
        ClaimsView { player_id: self.player_id@, game_id: self.game_id@, exp: self.exp }
    }
}

/// Why a token is found bad: it has run out, it is no token at all, or
/// something else, told in words.
#[derive(Debug)]
pub enum TokenFault {
    Expired,
    Invalid,
    Other(String),
}

/// What is read from a token that is found good: the player, the game and
/// the time at which it runs out, each as far as the token names it as a text
/// or a whole number.
pub type TokenFields = (Option<String>, Option<String>, Option<i64>);

/// What signing gives for `player_id`, `game_id` and `exp` with `secret`: the
/// token that says them, or the words of why none could be made.
pub uninterp spec fn token_text(
    secret: Seq<char>,
    player_id: Seq<char>,
    game_id: Seq<char>,
    exp: i64,
) -> Result<Seq<char>, Seq<char>>;

/// A token or the words of why there is none, as texts.
pub open spec fn issued_view(token: Result<String, String>) -> Result<Seq<char>, Seq<char>> {
    match token {
        Ok(text) => Ok(text@),
        Err(why) => Err(why@),
    }
}

/// `chrono::Utc::now` with `timestamp`: the time of the system's clock in whole
/// seconds since 1970. Nothing is claimed of it.
#[verifier::external_body]
fn unix_time() -> (seconds: i64) {
    chrono::Utc::now().timestamp()
}

/// `jsonwebtoken::encode` with the default header, on the claims `player_id`,
/// `game_id` and `exp`, and the key that `EncodingKey::from_secret` makes of
/// the bytes of `secret`. What comes back, the token or the text of the
/// error, depends on nothing but these four; what it is takes a name.
#[verifier::external_body]
fn sign_claims(secret: &str, player_id: &str, game_id: &str, exp: i64) -> (token: Result<
    String,
    String,
>)
    ensures
        issued_view(token) == token_text(secret@, player_id@, game_id@, exp),
{
    let mut claims = serde_json::Map::new();
    claims.insert("player_id".to_string(), serde_json::Value::from(player_id));
    claims.insert("game_id".to_string(), serde_json::Value::from(game_id));
    claims.insert("exp".to_string(), serde_json::Value::from(exp));
    let key = jsonwebtoken::EncodingKey::from_secret(secret.as_bytes());
    match jsonwebtoken::encode(&jsonwebtoken::Header::default(), &claims, &key) {
        Ok(text) => Ok(text),
        Err(error) => Err(error.to_string()),
    }
}

/// `jsonwebtoken::errors::Error`, why a token could not be read: carried from
/// where it arises to where it is told apart, never looked into.
#[verifier::external_type_specification]
#[verifier::external_body]
pub struct ExTokenError(jsonwebtoken::errors::Error);

/// `jsonwebtoken::decode` with the default validation and the key that
/// `DecodingKey::from_secret` makes of the bytes of `secret`. It checks the
/// signature and, against the clock, that the token has not run out. Nothing
/// is claimed of what comes back.
#[verifier::external_body]
fn read_claims(secret: &str, token: &str) -> (read: Result<
    TokenFields,
    jsonwebtoken::errors::Error,
>) {
    let key = jsonwebtoken::DecodingKey::from_secret(secret.as_bytes());
    let validation = jsonwebtoken::Validation::default();
    let said = jsonwebtoken::decode::<serde_json::Value>(token, &key, &validation)?.claims;
    let player_id = said["player_id"].as_str().map(String::from);
    let game_id = said["game_id"].as_str().map(String::from);
    Ok((player_id, game_id, said["exp"].as_i64()))
}

/// `jsonwebtoken::errors::Error::kind`, and the error's `to_string` for the
/// kinds that have no name here. Nothing is claimed of what comes back.
#[verifier::external_body]
fn fault_of(error: &jsonwebtoken::errors::Error) -> (fault: TokenFault) {
    match error.kind() {
        jsonwebtoken::errors::ErrorKind::ExpiredSignature => TokenFault::Expired,
        jsonwebtoken::errors::ErrorKind::InvalidToken => TokenFault::Invalid,
        _ => TokenFault::Other(error.to_string()),
    }
}

/// When a token issued at `now` runs out, if that time can be told.
pub open spec fn expiry(now: i64) -> Option<i64> {
    if now <= i64::MAX - TOKEN_LIFETIME_SECS {
        Some((now + TOKEN_LIFETIME_SECS) as i64)
    } else {
        None
    }
}

/// What issuing a token for the player in the game at the time `now` gives:
/// what signing gives for the time an hour later, if that time can be told.
pub open spec fn token_at(player_id: Seq<char>, game_id: Seq<char>, now: i64) -> Result<
    Seq<char>,
    Seq<char>,
> {
    match expiry(now) {
        Some(exp) => token_text(JWT_SECRET@, player_id, game_id, exp),
        None => Err("Horodatage invalide"@),
    }
}

/// Why a token is found bad, in words.
pub open spec fn fault_text(fault: TokenFault) -> Seq<char> {
    match fault {
        TokenFault::Expired => "Token expiré"@,
        TokenFault::Invalid => "Token invalide"@,
        TokenFault::Other(why) => "Erreur de validation du token: "@ + why@,
    }
}

/// What a token is taken to say, given what was read from it: the claims, if
/// the token was found good and names all three; else why not.
pub open spec fn claims_read(read: Result<TokenFields, TokenFault>) -> Result<
    ClaimsView,
    Seq<char>,
> {
    match read {
        Ok((Some(player_id), Some(game_id), Some(exp))) => Ok(
            ClaimsView { player_id: player_id@, game_id: game_id@, exp: exp },
        ),
        Ok(_) => Err("Erreur de validation du token: JSON error"@),
        Err(fault) => Err(fault_text(fault)),
    }
}

/// What the outcome of reading a token says, as the rules see it.
pub open spec fn claims_view(claims: Result<Claims, String>) -> Result<ClaimsView, Seq<char>> {
    match claims {
        Ok(said) => Ok(said@),
        Err(why) => Err(why@),
    }
}

/// Why a token is found bad, in words.
pub fn fault_message(fault: TokenFault) -> (text: String)
    ensures
        text@ == fault_text(fault),
{
    match fault {
        TokenFault::Expired => String::from_str("Token expiré"),
        TokenFault::Invalid => String::from_str("Token invalide"),
        TokenFault::Other(why) => {
            let mut text = String::from_str("Erreur de validation du token: ");
            text.append(why.as_str());
            text
        },
    }
}

/// Issues a token for the player in the game at the time `now`, good for an
/// hour from then.
pub fn create_token_at(player_id: &str, game_id: &str, now: i64) -> (token: Result<
    String,
    String,
>)
    ensures
        issued_view(token) == token_at(player_id@, game_id@, now),
{
    if now > i64::MAX - TOKEN_LIFETIME_SECS {
        return Err(String::from_str("Horodatage invalide"));
    }
    sign_claims(JWT_SECRET, player_id, game_id, now + TOKEN_LIFETIME_SECS)
}

/// Issues a token for the player in the game, good for an hour from now:
/// what issuing one at the time of the clock gives.
pub fn create_token(player_id: &str, game_id: &str) -> (token: Result<String, String>)
    ensures
        exists|now: i64| issued_view(token) == #[trigger] token_at(player_id@, game_id@, now),
{
    let now = unix_time();
    let token = create_token_at(player_id, game_id, now);
    assert(issued_view(token) == token_at(player_id@, game_id@, now));
    token
}

/// What a token is taken to say, given what was read from it.
pub fn claims_from(read: Result<TokenFields, TokenFault>) -> (claims: Result<Claims, String>)
    ensures
        claims_view(claims) == claims_read(read),
{
    match read {
        Ok((Some(player_id), Some(game_id), Some(exp))) => Ok(Claims { player_id, game_id, exp }),
        Ok(_) => Err(String::from_str("Erreur de validation du token: JSON error")),
        Err(fault) => Err(fault_message(fault)),
    }
}

/// Checks a token and returns what it says, or why it is found bad.
pub fn verify_token(token: &str) -> (claims: Result<Claims, String>)
    ensures
        exists|read: Result<TokenFields, TokenFault>|
            claims_view(claims) == #[trigger] claims_read(read),
{
    let read = match read_claims(JWT_SECRET, token) {
        Ok(fields) => Ok(fields),
        Err(error) => Err(fault_of(&error)),
    };
    let ghost seen = read;
    let claims = claims_from(read);
    assert(claims_view(claims) == claims_read(seen));
    claims
}

} // verus!
