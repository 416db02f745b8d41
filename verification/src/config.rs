//! The settings that are kept in `config.json` beside the executable.

use vstd::prelude::*;

verus! {

broadcast use vstd::string::group_string_axioms;

/// The application's settings, all kept as the text the user entered.
pub struct AppConfig {
    pub target_dir: String,
    pub file_encoding: String,
    pub map_tokens: String,
    pub max_file_size_kb: String,
    pub output_extension: String,
    pub git_path: String,
    pub aider_path: String,
    pub chat_language: String,
    pub api_port: String,
    pub prompt_settings: String,
}

impl Default for AppConfig {
    /// The settings used when there is no `config.json`.
    fn default() -> (res: Self)
        ensures
            res.target_dir@ == ""@,
            res.file_encoding@ == ""@,
            res.map_tokens@ == ""@,
            res.max_file_size_kb@ == "80"@,
            res.output_extension@ == "xml"@,
            res.git_path@ == ""@,
            res.aider_path@ == "aider"@,
            res.chat_language@ == "English"@,
            res.api_port@ == "8080"@,
            res.prompt_settings@ == ""@,
    {
        AppConfig {
            target_dir: String::from_str(""),
            file_encoding: String::from_str(""),
            map_tokens: String::from_str(""),
            max_file_size_kb: String::from_str("80"),
            output_extension: String::from_str("xml"),
            git_path: String::from_str(""),
            aider_path: String::from_str("aider"),
            chat_language: String::from_str("English"),
            api_port: String::from_str("8080"),
            prompt_settings: String::from_str(""),
        }
    }
}

} // verus!
