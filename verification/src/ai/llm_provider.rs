//! The provider of a language model.
use vstd::prelude::*;

use crate::ai::gemini::GeminiClient;
use crate::ai::gemini::GeminiError;
use crate::score::Score;
use crate::text::edit;
use crate::text::number;

verus! {

/// What can go wrong with any provider.
#[derive(Debug)]
pub enum LlmError {
    /// The service refused the request.
    ApiError(String),
    /// The service was not reached.
    NetworkError(String),
    /// There is no quota; the seconds to wait.
    RateLimited(u64),
    /// No key is configured.
    NoApiKey,
    /// The reply could not be read.
    ParseError(String),
}

impl LlmError {
    /// The text of the error.
    pub fn message(&self) -> (r: String)
        ensures
            match self {
                LlmError::ApiError(s) => r@ == "API error: "@ + s@,
                LlmError::NetworkError(s) => r@ == "Network error: "@ + s@,
                LlmError::RateLimited(n) => r@ == "Rate limited — thử lại sau "@
                    + number::decimal(*n as nat) + " giây"@,
                LlmError::NoApiKey => r@ == "API key chưa được cấu hình"@,
                LlmError::ParseError(s) => r@ == "Parse error: "@ + s@,
            },
    {
        match self {
            LlmError::ApiError(s) => edit::concat2("API error: ", s.as_str()),
            LlmError::NetworkError(s) => edit::concat2("Network error: ", s.as_str()),
            LlmError::RateLimited(n) => edit::concat3(
                "Rate limited — thử lại sau ",
                number::to_decimal(*n as u128).as_str(),
                " giây",
            ),
            LlmError::NoApiKey => edit::owned("API key chưa được cấu hình"),
            LlmError::ParseError(s) => edit::concat2("Parse error: ", s.as_str()),
        }
    }
}

/// The error of any provider for an error of this one.
pub open spec fn provider_error(e: GeminiError) -> LlmError {
    match e {
        GeminiError::ApiError(s) => LlmError::ApiError(s),
        GeminiError::NetworkError(s) => LlmError::NetworkError(s),
        GeminiError::RateLimited(n) => LlmError::RateLimited(n),
        GeminiError::NoApiKey => LlmError::NoApiKey,
        GeminiError::ParseError(s) => LlmError::ParseError(s),
    }
}

impl From<GeminiError> for LlmError {
    fn from(e: GeminiError) -> (r: LlmError) {
        match e {
            GeminiError::ApiError(s) => LlmError::ApiError(s),
            GeminiError::NetworkError(s) => LlmError::NetworkError(s),
            GeminiError::RateLimited(n) => LlmError::RateLimited(n),
            GeminiError::NoApiKey => LlmError::NoApiKey,
            GeminiError::ParseError(s) => LlmError::ParseError(s),
        }
    }
}

impl vstd::std_specs::convert::FromSpecImpl<GeminiError> for LlmError {
    open spec fn obeys_from_spec() -> bool {
        true
    }

    open spec fn from_spec(e: GeminiError) -> LlmError {
        provider_error(e)
    }
}

/// The settings of a request to any provider.
#[derive(Debug)]
pub struct LlmConfig {
    /// How free the choice of words is.
    pub temperature: Score,
    /// The most tokens of the reply.
    pub max_output_tokens: u32,
    /// The model.
    pub model: String,
}

/// The standard temperature as bits, seven tenths.
pub const STANDARD_TEMPERATURE_BITS: u32 = 0x3f33_3333;

impl Default for LlmConfig {
    fn default() -> (r: LlmConfig)
        ensures
            r.temperature.bits == STANDARD_TEMPERATURE_BITS,
            r.max_output_tokens == 8192,
            r.model@ == "gemini-2.0-flash"@,
    {
        LlmConfig {
            temperature: Score { bits: STANDARD_TEMPERATURE_BITS },
            max_output_tokens: 8192,
            model: edit::owned("gemini-2.0-flash"),
        }
    }
}

/// The provider that asks Gemini.
#[derive(Debug)]
pub struct GeminiProvider {
    client: GeminiClient,
}

impl GeminiProvider {
    /// The access that the provider uses.
    pub closed spec fn access(&self) -> GeminiClient {
        self.client
    }

    /// A provider with a key.
    pub fn new(api_key: String) -> (r: GeminiProvider)
        ensures
            r.access().api_key == api_key,
            r.access().base_url@ == crate::ai::gemini::BASE_URL@,
    {
        GeminiProvider { client: GeminiClient::new(api_key) }
    }

    /// The access that the provider uses.
    pub fn client(&self) -> (r: &GeminiClient)
        ensures
            *r == self.access(),
    {
        &self.client
    }

    /// The provider always has a key.
    pub fn is_ready(&self) -> (r: bool)
        ensures
            r,
    {
        true
    }

    /// The name of the provider.
    pub fn provider_name(&self) -> (r: &'static str)
        ensures
            r@ == "gemini"@,
    {
        "gemini"
    }
}

} // verus!
