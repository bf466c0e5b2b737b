//! The settings of the gateway.

use vstd::prelude::*;

use crate::models::HealthResponse;
use crate::text::{parse_number, parsed, strip_end, without_end};

verus! {

/// The settings of the gateway.
#[derive(Debug)]
pub struct AppConfig {
    /// The port to listen on.
    pub port: u16,
    /// Where the inference server is, without a slash at the end.
    pub vllm_base_url: String,
    /// The model that the inference server runs.
    pub model_id: String,
    /// The greatest number of pages of a PDF.
    pub pdf_max_size: usize,
    /// Pages per prompt where a request does not say.
    pub default_batch_size: usize,
    /// Seconds after which a prompt is given up.
    pub request_timeout_secs: u64,
}

/// The variables of the environment from which the settings are made, each
/// absent where it is not set.
#[derive(Debug)]
pub struct Environment {
    pub port: Option<String>,
    pub vllm_base_url: Option<String>,
    pub model_id: Option<String>,
    pub pdf_max_size: Option<String>,
    pub default_batch_size: Option<String>,
    pub request_timeout_secs: Option<String>,
}

/// The number that a variable holds, `default` where it holds none of at most
/// `max`.
pub open spec fn number_in(variable: Option<String>, max: nat, default: nat) -> nat {
    match variable {
        Some(text) => match parsed(text@, max) {
            Some(n) => n,
            None => default,
        },
        None => default,
    }
}

/// The text that a variable holds, `default` where it is not set.
pub open spec fn text_in(variable: Option<String>, default: Seq<char>) -> Seq<char> {
    match variable {
        Some(text) => text@,
        None => default,
    }
}

fn number_or(variable: &Option<String>, max: u64, default: u64) -> (r: u64)
    requires
        default <= max,
    ensures
        r == number_in(*variable, max as nat, default as nat),
        r <= max,
{
    match variable {
        Some(text) => match parse_number(text, max) {
            Some(n) => n,
            None => default,
        },
        None => default,
    }
}

pub(crate) fn text_or(variable: &Option<String>, default: &str) -> (r: String)
    ensures
        r@ == text_in(*variable, default@),
{
    match variable {
        Some(text) => text.clone(),
        None => default.to_string(),
    }
}

impl AppConfig {
    /// Makes the settings from the environment.
    pub fn from_env(env: &Environment) -> (r: Self)
        ensures
            r.port == number_in(env.port, u16::MAX as nat, 3000),
            r.vllm_base_url@ == without_end(
                text_in(env.vllm_base_url, "http://ocr-vlm-service:8000"@),
                '/',
            ),
            r.model_id@ == text_in(env.model_id, "baidu/Unlimited-OCR"@),
            r.pdf_max_size == number_in(env.pdf_max_size, usize::MAX as nat, 40),
            r.default_batch_size == number_in(env.default_batch_size, usize::MAX as nat, 4),
            r.request_timeout_secs == number_in(env.request_timeout_secs, u64::MAX as nat, 300),
    {
        let url = text_or(&env.vllm_base_url, "http://ocr-vlm-service:8000");
        AppConfig {
            port: number_or(&env.port, u16::MAX as u64, 3000) as u16,
            vllm_base_url: strip_end(&url, '/'),
            model_id: text_or(&env.model_id, "baidu/Unlimited-OCR"),
            pdf_max_size: number_or(&env.pdf_max_size, usize::MAX as u64, 40) as usize,
            default_batch_size: number_or(&env.default_batch_size, usize::MAX as u64, 4) as usize,
            request_timeout_secs: number_or(&env.request_timeout_secs, u64::MAX, 300),
        }
    }

    /// The reply to a health probe.
    pub fn health(&self) -> (r: HealthResponse)
        ensures
            r.status@ == "ok"@,
            r.model@ == self.model_id@,
            r.vllm_endpoint@ == self.vllm_base_url@,
            r.pdf_max_size == self.pdf_max_size,
    {
        HealthResponse {
            status: "ok".to_string(),
            model: self.model_id.clone(),
            vllm_endpoint: self.vllm_base_url.clone(),
            pdf_max_size: self.pdf_max_size,
        }
    }
}

impl Clone for AppConfig {
    fn clone(&self) -> (r: Self)
        ensures
            r == *self,
    {
        AppConfig {
            port: self.port,
            vllm_base_url: self.vllm_base_url.clone(),
            model_id: self.model_id.clone(),
            pdf_max_size: self.pdf_max_size,
            default_batch_size: self.default_batch_size,
            request_timeout_secs: self.request_timeout_secs,
        }
    }
}

/// The address of the inference server never ends with a slash.
pub proof fn base_url_has_no_slash_at_its_end(url: Seq<char>)
    ensures
        without_end(url, '/').len() == 0 || without_end(url, '/').last() != '/',
    decreases url.len(),
{
    if url.len() > 0 && url.last() == '/' {
        base_url_has_no_slash_at_its_end(url.drop_last());
    }
}

} // verus!
