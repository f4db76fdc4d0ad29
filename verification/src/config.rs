//! What is kept from one run to the next.
use vstd::prelude::*;

verus! {

/// The settings: the name that the other machines see.
pub struct AppConfig {
    pub name: String,
}

impl Default for AppConfig {
    fn default() -> (config: Self)
        ensures
            config.name@.len() == 0,
    {
        Self { name: String::new() }
    }
}

/// The settings to start with: what was stored, else the default.
pub fn load(stored: Option<AppConfig>) -> (config: AppConfig)
    ensures
        match stored {
            Some(kept) => config == kept,
            None => config.name@.len() == 0,
        },
{
    match stored {
        Some(config) => config,
        None => AppConfig::default(),
    }
}

} // verus!
