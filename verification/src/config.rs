//! The settings the backend runs under. Loading them from files or the
//! environment is the caller environment's work; the shapes and the
//! conversion to the token-signing configuration live here.

use vstd::prelude::*;
use vstd::string::{StrSliceExecFns, StringSliceAdditionalSpecFns};

use crate::auth;

verus! {

/// Where the server listens.
pub struct ServerConfig {
    pub domain: String,
    pub port: u16,
}

/// How the outside content service is reached.
pub struct OpenRouterConfig {
    pub base_url: String,
    pub api_key: String,
    pub text_model: String,
    pub image_model: String,
    pub reasoning_model: String,
    pub max_completion_tokens: u32,
}

/// Token-signing settings, as configured.
pub struct JwtConfig {
    pub secret_key: String,
    /// How long a fresh token lives, in seconds.
    pub token_expiry: u64,
    /// How close to expiry a token is refreshed, in seconds.
    pub refresh_threshold: u64,
}

/// Certificate and key paths for serving TLS.
pub struct TlsConfig {
    pub cert_path: String,
    pub key_path: String,
}

/// The prompt texts handed to the content service.
pub struct PromptsConfig {
    pub extract_words_from_text: String,
    pub extract_words_from_image: String,
    pub extract_grammar_rule_from_text: String,
    pub generate_grammar_rule_from_description: String,
}

/// Everything the backend is configured with.
pub struct Settings {
    pub server: ServerConfig,
    pub openrouter: OpenRouterConfig,
    pub jwt: JwtConfig,
    pub tls: Option<TlsConfig>,
    pub prompts: PromptsConfig,
}

impl Settings {
    /// The token-signing configuration these settings describe: the key
    /// bytes of the configured secret, with the configured lifetimes.
    pub fn jwt_config(&self) -> (r: auth::JwtConfig)
        ensures
            r.secret@ == vstd::utf8::encode_utf8(self.jwt.secret_key@),
            r.token_expiry == self.jwt.token_expiry,
            r.refresh_threshold == self.jwt.refresh_threshold,
    {
        let key = self.jwt.secret_key.as_str();
        proof {
            assert(key.spec_bytes() == vstd::utf8::encode_utf8(self.jwt.secret_key@));
        }
        auth::JwtConfig {
            secret: key.as_bytes_vec(),
            token_expiry: self.jwt.token_expiry,
            refresh_threshold: self.jwt.refresh_threshold,
        }
    }
}

} // verus!
