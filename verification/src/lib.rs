//! Verified core of PromptProxy: the text processing that bridges Aider and a
//! web LLM (encoding labels, patch preparation, file packing, prompts).

pub mod text;
pub mod encoding;
pub mod pack;
pub mod line_endings;
pub mod patch;
pub mod aider;
pub mod prompt;
pub mod config;
pub mod shutdown;

pub use aider::{AiderProcessState, AiderSession, AiderSessionState};
pub use config::AppConfig;
pub use encoding::resolve_encoding_labels;
pub use prompt::PromptSettings;
