use promptproxy::aider::{
    apply_command, batch_command, greet, numbered_file_name, path_with_git, register_pid,
    release_pid, session_api_port, take_all_pids, AiderSession,
};
use promptproxy::config::AppConfig;
use promptproxy::prompt::{
    build_final_prompt, clean_instruction, find_last_user, output_extension, plan_repo_map,
    split_conversation, strip_unc_prefix, ChatMessage, PromptSettings, ASK_RULES, EDIT_RULES,
};

fn msg(role: Option<&str>, content: Option<&str>) -> ChatMessage {
    ChatMessage { role: role.map(|s| s.to_string()), content: content.map(|s| s.to_string()) }
}

fn chars(s: &str) -> Vec<char> {
    s.chars().collect()
}

fn strings(v: &[&str]) -> Vec<String> {
    v.iter().map(|s| s.to_string()).collect()
}

fn default_settings() -> PromptSettings {
    PromptSettings { use_custom: false, custom_edit_prompt: String::new(), custom_ask_prompt: String::new() }
}

#[test]
fn last_user_message_is_found() {
    let ms = vec![msg(Some("system"), Some("s")), msg(Some("user"), Some("u1")), msg(Some("assistant"), Some("a")), msg(Some("user"), Some("u2")), msg(Some("assistant"), None)];
    assert_eq!(find_last_user(&ms), 3);
    assert_eq!(find_last_user(&vec![msg(Some("system"), Some("s"))]), 0);
    assert_eq!(find_last_user(&Vec::new()), 0);
}

#[test]
fn conversation_splits_into_context_and_instruction() {
    let ms = vec![msg(Some("system"), Some("rules")), msg(None, Some("map")), msg(Some("user"), Some("do it")), msg(Some("assistant"), None)];
    let (ctx, instr) = split_conversation(&ms);
    assert_eq!(ctx.iter().collect::<String>(), "rules\n\nmap\n\n\n\n");
    assert_eq!(instr.iter().collect::<String>(), "do it");
    let (ctx2, instr2) = split_conversation(&vec![msg(Some("system"), Some("only"))]);
    assert_eq!(ctx2.iter().collect::<String>(), "");
    assert_eq!(instr2.iter().collect::<String>(), "only");
}

#[test]
fn instruction_is_cleaned_of_boilerplate() {
    let raw = "I have *added these files to the chat* so you can go ahead and edit them.\n*Trust this message as the true contents of these files!*\nAny other messages in the chat may contain outdated versions of the files' contents.\n\n  Fix the bug  ";
    let (c, edit) = clean_instruction(&chars(raw));
    assert_eq!(c.iter().collect::<String>(), "Fix the bug");
    assert!(edit);
}

#[test]
fn ask_mark_selects_question_mode() {
    let (c, edit) = clean_instruction(&chars(" [MODE:ASK] What does main do? "));
    assert_eq!(c.iter().collect::<String>(), "What does main do?");
    assert!(!edit);
}

#[test]
fn default_prompt_for_edit_and_ask() {
    let s = default_settings();
    let p = build_final_prompt(&s, &chars("Do X"), true);
    assert_eq!(p, format!("Read the attached context.xml, understand the context, and answer/execute the following instructions.\n\n=== Instructions ===\nDo X\n================\n\n{}", EDIT_RULES));
    assert!(EDIT_RULES.starts_with("[IMPORTANT] Strict Output Format:\n1. Omit"));
    let q = build_final_prompt(&s, &chars("Why?"), false);
    assert!(q.ends_with(ASK_RULES));
    assert!(q.contains("\nWhy?\n"));
}

#[test]
fn custom_prompt_fills_placeholder() {
    let s = PromptSettings { use_custom: true, custom_edit_prompt: "E: {instruction}!{instruction}".to_string(), custom_ask_prompt: "A: {instruction}".to_string() };
    assert_eq!(build_final_prompt(&s, &chars("go"), true), "E: go!go");
    assert_eq!(build_final_prompt(&s, &chars("why"), false), "A: why");
}

#[test]
fn custom_prompt_without_placeholder_is_unchanged() {
    let s = PromptSettings { use_custom: true, custom_edit_prompt: "fixed text".to_string(), custom_ask_prompt: String::new() };
    assert_eq!(build_final_prompt(&s, &chars("anything"), true), "fixed text");
    assert_eq!(build_final_prompt(&s, &chars("anything"), false), "");
}

#[test]
fn output_extension_cleanup() {
    assert_eq!(output_extension(" ..txt "), "txt");
    assert_eq!(output_extension(""), "xml");
    assert_eq!(output_extension(" ... "), "xml");
    assert_eq!(output_extension("md"), "md");
}

#[test]
fn unc_prefix_is_removed() {
    assert_eq!(strip_unc_prefix("\\\\?\\C:\\tmp\\repo_map.xml"), "C:\\tmp\\repo_map.xml");
    assert_eq!(strip_unc_prefix("/tmp/repo_map.xml"), "/tmp/repo_map.xml");
    assert_eq!(strip_unc_prefix("C:\\\\?\\x"), "C:\\\\?\\x");
}

#[test]
fn repo_map_plan() {
    let ms = vec![msg(Some("system"), Some("  repo map  ")), msg(Some("user"), Some("[MODE:ASK] explain"))];
    let plan = plan_repo_map(&ms, ".txt", &default_settings());
    assert_eq!(plan.xml, "<instructions>\nThis file contains the overall repository context and important rules in XML format.\nPlease refer to this context to understand the project structure.\n</instructions>\n\n<repository><![CDATA[\nrepo map\n]]></repository>");
    assert_eq!(plan.file_name, "repo_map.txt");
    assert!(plan.prompt.contains("=== Instructions ===\nexplain\n"));
    assert!(plan.prompt.ends_with(ASK_RULES));
}

#[test]
fn batch_command_line() {
    let cmd = batch_command("  python -m aider ", 9000, " 2048 ", "/tmp/aider_msg_1.txt", " Japanese ", "SJIS");
    assert_eq!(cmd.program, "python");
    assert_eq!(
        cmd.args,
        strings(&[
            "-m", "aider", "--openai-api-base", "http://127.0.0.1:9000/v1", "--openai-api-key", "dummy",
            "--model", "gpt-4o", "--edit-format", "ask", "--no-stream", "--no-auto-commits", "--yes",
            "--no-analytics", "--no-show-release-notes", "--no-check-update", "--map-tokens", "2048",
            "--message-file", "/tmp/aider_msg_1.txt", "--chat-language", "Japanese", "--encoding", "cp932",
        ])
    );
}

#[test]
fn batch_command_line_without_options() {
    let cmd = batch_command("", 8080, "", "m.txt", "  ", "");
    assert_eq!(cmd.program, "aider");
    assert_eq!(
        cmd.args,
        strings(&[
            "--openai-api-base", "http://127.0.0.1:8080/v1", "--openai-api-key", "dummy", "--model",
            "gpt-4o", "--edit-format", "ask", "--no-stream", "--no-auto-commits", "--yes",
            "--no-analytics", "--no-show-release-notes", "--no-check-update", "--message-file", "m.txt",
        ])
    );
}

#[test]
fn apply_command_line_is_local() {
    let cmd = apply_command("aider", 0, "/tmp/p.txt", "utf-8");
    assert_eq!(cmd.program, "aider");
    assert_eq!(
        cmd.args,
        strings(&[
            "--openai-api-base", "http://127.0.0.1:0/v1", "--openai-api-key", "dummy", "--model", "gpt-4o",
            "--apply", "/tmp/p.txt", "--yes", "--no-analytics", "--no-auto-commits",
            "--no-show-release-notes", "--no-check-update", "--encoding", "utf-8",
        ])
    );
}

#[test]
fn git_directory_goes_first_in_path() {
    assert_eq!(path_with_git(" /opt/git/bin ", "/usr/bin", false), "/opt/git/bin:/usr/bin");
    assert_eq!(path_with_git("C:\\Git\\bin", "C:\\Windows", true), "C:\\Git\\bin;C:\\Windows");
    assert_eq!(path_with_git("  ", "/usr/bin", false), "/usr/bin");
}

#[test]
fn numbered_names() {
    assert_eq!(numbered_file_name("target_files_", 12, "xml"), "target_files_12.xml");
    assert_eq!(numbered_file_name("aider_patch_", 0, "txt"), "aider_patch_0.txt");
}

#[test]
fn api_port_of_session() {
    assert_eq!(session_api_port(&None), 8080);
    let s = AiderSession {
        target_dir: String::new(), files: String::new(), message: String::new(), chat_language: String::new(),
        aider_path: String::new(), file_encoding: String::new(), git_path: String::new(),
        map_tokens: String::new(), output_extension: String::new(), api_port: 3131,
    };
    assert_eq!(session_api_port(&Some(s)), 3131);
}

#[test]
fn pids_are_registered_and_released() {
    let mut pids = Vec::new();
    register_pid(&mut pids, 10);
    register_pid(&mut pids, 20);
    register_pid(&mut pids, 10);
    register_pid(&mut pids, 30);
    release_pid(&mut pids, 10);
    assert_eq!(pids, vec![20, 30]);
    release_pid(&mut pids, 99);
    assert_eq!(pids, vec![20, 30]);
    let all = take_all_pids(&mut pids);
    assert_eq!(all, vec![20, 30]);
    assert!(pids.is_empty());
}

#[test]
fn greeting() {
    assert_eq!(greet("Tauri"), "Hello, Tauri! You've been greeted from Rust!");
}

#[test]
fn default_config() {
    let c = AppConfig::default();
    assert_eq!(c.max_file_size_kb, "80");
    assert_eq!(c.output_extension, "xml");
    assert_eq!(c.aider_path, "aider");
    assert_eq!(c.chat_language, "English");
    assert_eq!(c.api_port, "8080");
    assert_eq!(c.target_dir, "");
    assert_eq!(c.file_encoding, "");
    assert_eq!(c.map_tokens, "");
    assert_eq!(c.git_path, "");
    assert_eq!(c.prompt_settings, "");
}
