//! The configuration of the service, with its defaults.
use vstd::prelude::*;

verus! {

/// Where the service finds the engine and its files, and where it listens.
#[derive(Debug, PartialEq, Eq)]
pub struct Config {
    pub comfyui_url: String,
    pub static_drive_path: String,
    pub prompts_dir: String,
    pub api_host: String,
    pub api_port: String,
}

/// What a setting comes to: the value that was found, or the default.
pub open spec fn setting(found: Option<String>, default: Seq<char>) -> Seq<char> {
    match found {
        Some(value) => value@,
        None => default,
    }
}

/// The value that was found, or the default.
fn value_or(found: Option<String>, default: &str) -> (r: String)
    ensures
        r@ == setting(found, default@),
{
    match found {
        Some(value) => value,
        None => default.to_owned(),
    }
}

impl Config {
    /// The configuration made of the values that were found for the five
    /// settings, each one that was not found replaced by its default:
    /// `http://localhost:8188`, `./static`, `./prompts`, `127.0.0.1`, `8189`.
    pub fn new(
        comfyui_url: Option<String>,
        static_drive_path: Option<String>,
        prompts_dir: Option<String>,
        api_host: Option<String>,
        api_port: Option<String>,
    ) -> (r: Config)
        ensures
            r.comfyui_url@ == setting(comfyui_url, "http://localhost:8188"@),
            r.static_drive_path@ == setting(static_drive_path, "./static"@),
            r.prompts_dir@ == setting(prompts_dir, "./prompts"@),
            r.api_host@ == setting(api_host, "127.0.0.1"@),
            r.api_port@ == setting(api_port, "8189"@),
    {
        Config {
            comfyui_url: value_or(comfyui_url, "http://localhost:8188"),
            static_drive_path: value_or(static_drive_path, "./static"),
            prompts_dir: value_or(prompts_dir, "./prompts"),
            api_host: value_or(api_host, "127.0.0.1"),
            api_port: value_or(api_port, "8189"),
        }
    }
}

} // verus!
