//! Verified core of the Omega Drive player and desktop shell: the sparse byte
//! cache that backs streaming playback, byte-range planning, playback tuning,
//! segment telemetry, extension manifests and onboarding decisions.

pub mod bot_env;
pub mod chunks;
pub mod destinations;
pub mod extensions;
pub mod flights;
pub mod json;
pub mod mpv;
pub mod onboarding;
pub mod sparse;
pub mod system;
pub mod telemetry;
pub mod text;
pub mod url_cache;
pub mod video_index;
pub mod playback;
pub mod player_config;
pub mod range;
pub mod runtime;
pub mod settings;
pub mod shell;
