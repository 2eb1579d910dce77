use kanji_card::auth::{
    check_token, hash_password, verify_password, Claims, TokenStatus, User, TOKEN_COOKIE_NAME,
};
use kanji_card::config::{
    JwtConfig, OpenRouterConfig, PromptsConfig, ServerConfig, Settings,
};

#[test]
fn password_hash_is_base64_of_salted_sha512() {
    // base64(sha512("hunter2" ++ "alice"))
    assert_eq!(
        hash_password("hunter2", "alice"),
        "KFFQyNeyqlYwDG9TQ/lNgJW0TsNf3DvsEwDB7dXBMDuuwNo/3b0Ft2UTXxs18e+KZgb2cLG5NpcoROk3UD/cbQ=="
    );
}

#[test]
fn verify_password_accepts_only_the_right_password() {
    let user = User {
        login: "alice".to_string(),
        password_hash: hash_password("hunter2", "alice"),
    };
    assert!(verify_password(&user, "hunter2"));
    assert!(!verify_password(&user, "hunter3"));
    // the salt is the login: the same password under another login differs
    let other = User {
        login: "bob".to_string(),
        password_hash: hash_password("hunter2", "alice"),
    };
    assert!(!verify_password(&other, "hunter2"));
}

#[test]
fn token_freshness_boundaries() {
    assert_eq!(check_token(99, 100, 10), TokenStatus::Expired);
    assert_eq!(check_token(100, 100, 10), TokenStatus::ActiveNeedsRefresh);
    assert_eq!(check_token(109, 100, 10), TokenStatus::ActiveNeedsRefresh);
    assert_eq!(check_token(110, 100, 10), TokenStatus::Active);
}

#[test]
fn renewed_claims_keep_the_subject() {
    let claims = Claims { sub: "alice".to_string(), exp: 50, iat: 0 };
    let renewed = claims.renewed(1_000, 600);
    assert_eq!(renewed.sub, "alice");
    assert_eq!(renewed.iat, 1_000);
    assert_eq!(renewed.exp, 1_600);
}

#[test]
fn jwt_config_takes_the_secret_bytes_and_lifetimes() {
    let settings = Settings {
        server: ServerConfig { domain: "localhost".to_string(), port: 8080 },
        openrouter: OpenRouterConfig {
            base_url: "https://example.invalid".to_string(),
            api_key: "SECRET-REDACTED".to_string(),
            text_model: "text".to_string(),
            image_model: "image".to_string(),
            reasoning_model: "reasoning".to_string(),
            max_completion_tokens: 4000,
        },
        jwt: JwtConfig {
            secret_key: "key".to_string(),
            token_expiry: 3600,
            refresh_threshold: 600,
        },
        tls: None,
        prompts: PromptsConfig {
            extract_words_from_text: "t".to_string(),
            extract_words_from_image: "i".to_string(),
            extract_grammar_rule_from_text: "g".to_string(),
            generate_grammar_rule_from_description: "d".to_string(),
        },
    };
    let jwt = settings.jwt_config();
    assert_eq!(jwt.secret, b"key".to_vec());
    assert_eq!(jwt.token_expiry, 3600);
    assert_eq!(jwt.refresh_threshold, 600);
}

#[test]
fn cookie_name_is_stable() {
    assert_eq!(TOKEN_COOKIE_NAME, "auth_token");
}
