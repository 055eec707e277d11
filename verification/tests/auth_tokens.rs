use jsonwebtoken::{encode, EncodingKey, Header};
use pulsur::gateway::{
    claims_of, rename_json_fields, strip_json_fields, AuthConfig, AuthPlugin, ClaimValue, JwtAlgorithm,
};

fn now_secs() -> u64 {
    std::time::SystemTime::now().duration_since(std::time::UNIX_EPOCH).unwrap().as_secs()
}

fn plugin(secret: &str) -> AuthPlugin {
    AuthPlugin::new(AuthConfig {
        secret: secret.to_string(),
        algorithm: None,
        issuer: None,
        audience: None,
        bypass_paths: vec![],
    })
}

fn token(secret: &str, sub: serde_json::Value, exp: u64) -> String {
    let mut claims = serde_json::Map::new();
    claims.insert("sub".to_string(), sub);
    claims.insert("exp".to_string(), serde_json::Value::from(exp));
    claims.insert("role".to_string(), serde_json::Value::from("admin"));
    claims.insert("level".to_string(), serde_json::Value::from(3));
    encode(&Header::default(), &claims, &EncodingKey::from_secret(secret.as_bytes())).unwrap()
}

fn extra_value(extra: &[(String, String)], name: &str) -> Option<String> {
    extra.iter().find(|(k, _)| k == name).map(|(_, v)| v.clone())
}

#[test]
fn verify_token_reads_claims() {
    let t = token("s3cret", serde_json::Value::from("user-1"), now_secs() + 3600);
    let claims = plugin("s3cret").verify_token(&t, JwtAlgorithm::HS256).expect("valid token");
    assert_eq!(claims.sub, "user-1");
    assert_eq!(claims.extra.len(), 2);
    assert_eq!(extra_value(&claims.extra, "role").as_deref(), Some("admin"));
    assert_eq!(extra_value(&claims.extra, "level").as_deref(), Some("3"));
}

#[test]
fn verify_token_rejects_bad_tokens() {
    let t = token("s3cret", serde_json::Value::from("user-1"), now_secs() + 3600);
    assert!(plugin("other").verify_token(&t, JwtAlgorithm::HS256).is_none());
    assert!(plugin("s3cret").verify_token(&t, JwtAlgorithm::HS384).is_none());
    assert!(plugin("s3cret").verify_token("not.a.token", JwtAlgorithm::HS256).is_none());
    let expired = token("s3cret", serde_json::Value::from("user-1"), now_secs() - 3600);
    assert!(plugin("s3cret").verify_token(&expired, JwtAlgorithm::HS256).is_none());
    let numeric_sub = token("s3cret", serde_json::Value::from(7), now_secs() + 3600);
    assert!(plugin("s3cret").verify_token(&numeric_sub, JwtAlgorithm::HS256).is_none());
}

fn text(s: &str) -> ClaimValue {
    ClaimValue::Text(s.to_string())
}

fn json(s: &str) -> ClaimValue {
    ClaimValue::Json(s.to_string())
}

#[test]
fn claims_of_entries() {
    let entries = vec![
        ("exp".to_string(), json("1700000000")),
        ("flag".to_string(), json("true")),
        ("sub".to_string(), text("u")),
        ("team".to_string(), text("core")),
    ];
    let c = claims_of(&entries).unwrap();
    assert_eq!(c.sub, "u");
    assert_eq!(c.extra, vec![("flag".to_string(), "true".to_string()), ("team".to_string(), "core".to_string())]);
    let no_sub = vec![("exp".to_string(), json("1"))];
    assert!(claims_of(&no_sub).is_none());
    let json_sub = vec![("sub".to_string(), json("5")), ("exp".to_string(), json("1"))];
    assert!(claims_of(&json_sub).is_none());
    let float_exp = vec![("sub".to_string(), text("u")), ("exp".to_string(), json("1.5"))];
    assert!(claims_of(&float_exp).is_none());
    let text_exp = vec![("sub".to_string(), text("u")), ("exp".to_string(), text("1"))];
    assert!(claims_of(&text_exp).is_none());
    let no_exp = vec![("sub".to_string(), text("u"))];
    assert!(claims_of(&no_exp).is_none());
}

#[test]
fn json_body_edits_write_the_edited_object() {
    let renames = vec![("old_key".to_string(), "new_key".to_string())];
    assert_eq!(rename_json_fields(&b"{\"old_key\":\"value\"}".to_vec(), &renames), b"{\"new_key\":\"value\"}".to_vec());
    let renames = vec![("a".to_string(), "c".to_string()), ("c".to_string(), "d".to_string())];
    assert_eq!(rename_json_fields(&b"{ \"a\": 1, \"b\": [2] }".to_vec(), &renames), b"{\"b\":[2],\"d\":1}".to_vec());
    let strip = vec!["internal_field".to_string(), "missing".to_string()];
    assert_eq!(
        strip_json_fields(&b"{\"ok\":true,\"internal_field\":\"leak\"}".to_vec(), &strip),
        b"{\"ok\":true}".to_vec()
    );
    assert_eq!(strip_json_fields(&b"{ \"ok\": true }".to_vec(), &strip), b"{ \"ok\": true }".to_vec());
}

fn token_with(secret: &str, iss: &str, aud: &str) -> String {
    let mut claims = serde_json::Map::new();
    claims.insert("sub".to_string(), serde_json::Value::from("user-2"));
    claims.insert("exp".to_string(), serde_json::Value::from(now_secs() + 3600));
    claims.insert("iss".to_string(), serde_json::Value::from(iss));
    claims.insert("aud".to_string(), serde_json::Value::from(aud));
    encode(&Header::default(), &claims, &EncodingKey::from_secret(secret.as_bytes())).unwrap()
}

#[test]
fn verify_token_checks_issuer_and_audience() {
    let plugin = AuthPlugin::new(AuthConfig {
        secret: "k".to_string(),
        algorithm: None,
        issuer: Some("issuer-a".to_string()),
        audience: Some("audience-b".to_string()),
        bypass_paths: vec![],
    });
    let good = plugin.verify_token(&token_with("k", "issuer-a", "audience-b"), JwtAlgorithm::HS256).expect("valid token");
    assert_eq!(good.sub, "user-2");
    assert_eq!(extra_value(&good.extra, "iss").as_deref(), Some("issuer-a"));
    assert!(plugin.verify_token(&token_with("k", "audience-b", "issuer-a"), JwtAlgorithm::HS256).is_none());
    assert!(plugin.verify_token(&token_with("k", "issuer-x", "audience-b"), JwtAlgorithm::HS256).is_none());
}
