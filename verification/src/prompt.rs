//! The mock chat-completions endpoint: turning the conversation that Aider
//! sends into a repository-map XML file and a prompt for the web LLM.

use vstd::prelude::*;
use crate::encoding::same_chars;
use crate::text::{
    lemma_strip_front_first,
    chars_of, contains, contains_chars, lemma_replace_absent, push_all, replace_all, replace_chars, starts_with,
    starts_with_chars, string_of, strip_class, strip_front, trim, trim_chars, CharClass,
};

verus! {

broadcast use vstd::string::group_string_axioms;

/// Boilerplate that Aider adds to the user's instruction.
pub const ADDED_FILES_NOTE: &'static str = "I have *added these files to the chat* so you can go ahead and edit them.";

/// Boilerplate that Aider adds to the user's instruction.
pub const TRUST_NOTE: &'static str = "*Trust this message as the true contents of these files!*";

/// Boilerplate that Aider adds to the user's instruction.
pub const OUTDATED_NOTE: &'static str = "Any other messages in the chat may contain outdated versions of the files' contents.";

/// The mark by which the user asks a question instead of asking for edits.
pub const ASK_MODE_MARK: &'static str = "[MODE:ASK]";

/// The place of the instruction in a custom prompt template.
pub const INSTRUCTION_PLACEHOLDER: &'static str = "{instruction}";

/// The repository-map XML up to the repository context.
pub const XML_HEAD: &'static str = "<instructions>\nThis file contains the overall repository context and important rules in XML format.\nPlease refer to this context to understand the project structure.\n</instructions>\n\n<repository><![CDATA[\n";

/// The repository-map XML after the repository context.
pub const XML_TAIL: &'static str = "\n]]></repository>";

/// The default prompt up to the instruction.
pub const PROMPT_HEAD: &'static str = "Read the attached context.xml, understand the context, and answer/execute the following instructions.\n\n=== Instructions ===\n";

/// The default prompt between the instruction and the output rules.
pub const PROMPT_MID: &'static str = "\n================\n\n";

/// The output rules of the default prompt for edits.
pub const EDIT_RULES: &'static str = "[IMPORTANT] Strict Output Format:\n1. Omit all greetings and explanations.\n2. Wrap the entire output in a markdown code block.\n3. You must write the 'target file path' on a single line at the very beginning of the block so Aider can recognize it.\n4. ONLY if you determine that necessary files are missing from context.xml, DO NOT output the code modification block. Instead, politely tell the user which files are missing, output the missing file paths in a single markdown code block (so the user can easily copy them), and ask the user to add them to the 'Target Files' input and try again.";

/// The output rules of the default prompt for questions.
pub const ASK_RULES: &'static str = "[IMPORTANT] Please output the answer to the user's question in natural text (code modification format is not required).\nIf you determine that necessary files are missing from context.xml to answer the question, please tell the user which files are missing. Output the missing file paths in a single markdown code block (so the user can easily copy them), and ask the user to add them to the 'Target Files' input and run again.";

/// The prefix that Windows puts before a verbatim path.
pub const UNC_PREFIX: &'static str = "\\\\?\\";

/// The user's choice of prompt templates.
pub struct PromptSettings {
    pub use_custom: bool,
    pub custom_edit_prompt: String,
    pub custom_ask_prompt: String,
}

/// One message of the conversation Aider sends: its role and its content,
/// each present when it is a JSON string.
pub struct ChatMessage {
    pub role: Option<String>,
    pub content: Option<String>,
}

/// What the endpoint produces for one request.
pub struct RepoMapPlan {
    /// The repository-map XML.
    pub xml: String,
    /// The name of the file to write it to.
    pub file_name: String,
    /// The prompt for the user to give to the web LLM.
    pub prompt: String,
}

pub open spec fn is_user(m: ChatMessage) -> bool {
    m.role matches Some(r) && r@ == "user"@
}

pub open spec fn content_of(m: ChatMessage) -> Seq<char> {
    match m.content {
        Some(c) => c@,
        None => seq![],
    }
}

/// The index of the last user message among the first `n`, 0 if none.
pub open spec fn last_user_before(ms: Seq<ChatMessage>, n: int) -> int
    decreases n,
{
    if n <= 0 {
        0
    } else if is_user(ms[n - 1]) {
        n - 1
    } else {
        last_user_before(ms, n - 1)
    }
}

/// The index of the last user message, 0 if there is none.
pub open spec fn last_user_index(ms: Seq<ChatMessage>) -> int {
    last_user_before(ms, ms.len() as int)
}

/// The contents of the first `n` messages but the one at `idx`, each
/// followed by a blank line.
pub open spec fn context_before(ms: Seq<ChatMessage>, idx: int, n: int) -> Seq<char>
    decreases n,
{
    if n <= 0 {
        seq![]
    } else {
        context_before(ms, idx, n - 1) + (if n - 1 == idx {
            seq![]
        } else {
            content_of(ms[n - 1]) + "\n\n"@
        })
    }
}

/// The repository context: every message but the last user message.
pub open spec fn repository_context(ms: Seq<ChatMessage>) -> Seq<char> {
    context_before(ms, last_user_index(ms), ms.len() as int)
}

/// The user's instruction as Aider sent it: the content of the last user
/// message (of the first message when there is no user message).
pub open spec fn raw_instruction(ms: Seq<ChatMessage>) -> Seq<char> {
    if last_user_index(ms) < ms.len() {
        content_of(ms[last_user_index(ms)])
    } else {
        seq![]
    }
}

/// The instruction without Aider's boilerplate, trimmed.
pub open spec fn without_boilerplate(s: Seq<char>) -> Seq<char> {
    trim(
        replace_all(
            replace_all(replace_all(s, ADDED_FILES_NOTE@, ""@), TRUST_NOTE@, ""@),
            OUTDATED_NOTE@,
            ""@,
        ),
    )
}

/// Whether the instruction asks a question rather than for edits.
pub open spec fn asks_question(s: Seq<char>) -> bool {
    contains(without_boilerplate(s), ASK_MODE_MARK@)
}

/// The instruction the user gave: without boilerplate and the ask mark.
pub open spec fn cleaned_instruction(s: Seq<char>) -> Seq<char> {
    trim(replace_all(without_boilerplate(s), ASK_MODE_MARK@, ""@))
}

/// The repository-map XML for a repository context.
pub open spec fn repo_map_xml(context: Seq<char>) -> Seq<char> {
    XML_HEAD@ + trim(context) + XML_TAIL@
}

/// The extension of output files: the configured one without surrounding
/// white space and leading dots, `xml` when nothing is left.
pub open spec fn output_ext(ext: Seq<char>) -> Seq<char> {
    let t = strip_front(trim(ext), CharClass::Dot);
    if t.len() == 0 {
        "xml"@
    } else {
        t
    }
}

/// The prompt for the web LLM: the custom template for the mode with the
/// instruction put in place of `{instruction}`, or the default prompt with
/// the instruction and the output rules of the mode.
pub open spec fn final_prompt(settings: PromptSettings, instruction: Seq<char>, edit: bool) -> Seq<
    char,
> {
    if settings.use_custom {
        replace_all(
            if edit {
                settings.custom_edit_prompt@
            } else {
                settings.custom_ask_prompt@
            },
            INSTRUCTION_PLACEHOLDER@,
            instruction,
        )
    } else {
        PROMPT_HEAD@ + instruction + PROMPT_MID@ + (if edit {
            EDIT_RULES@
        } else {
            ASK_RULES@
        })
    }
}

/// A path without the `\\?\` marks, when it begins with one.
pub open spec fn without_unc_prefix(path: Seq<char>) -> Seq<char> {
    if starts_with(path, UNC_PREFIX@) {
        replace_all(path, UNC_PREFIX@, ""@)
    } else {
        path
    }
}

fn is_user_message(m: &ChatMessage) -> (res: bool)
    ensures
        res == is_user(*m),
{
    match &m.role {
        Some(r) => {
            let rc = chars_of(r.as_str());
            let user = chars_of("user");
            same_chars(&rc, &user)
        },
        None => false,
    }
}

fn content_chars(m: &ChatMessage) -> (res: Vec<char>)
    ensures
        res@ == content_of(*m),
{
    match &m.content {
        Some(c) => chars_of(c.as_str()),
        None => Vec::new(),
    }
}

/// The index of the last user message, 0 if there is none.
pub fn find_last_user(messages: &Vec<ChatMessage>) -> (res: usize)
    ensures
        res as int == last_user_index(messages@),
{
    let mut n = messages.len();
    while n > 0
        invariant
            n <= messages@.len(),
            last_user_before(messages@, n as int) == last_user_index(messages@),
        decreases n,
    {
        if is_user_message(&messages[n - 1]) {
            return n - 1;
        }
        n = n - 1;
    }
    0
}

/// The repository context and the raw instruction of a conversation.
pub fn split_conversation(messages: &Vec<ChatMessage>) -> (res: (Vec<char>, Vec<char>))
    ensures
        res.0@ == repository_context(messages@),
        res.1@ == raw_instruction(messages@),
{
    let idx = find_last_user(messages);
    let mut context: Vec<char> = Vec::new();
    let mut instruction: Vec<char> = Vec::new();
    let sep: Vec<char> = vec!['\n', '\n'];
    proof {
        reveal_strlit("\n\n");
    }
    assert(sep@ == "\n\n"@);
    let n = messages.len();
    for i in 0..n
        invariant
            n == messages@.len(),
            idx as int == last_user_index(messages@),
            sep@ == "\n\n"@,
            context@ == context_before(messages@, idx as int, i as int),
            instruction@ == (if idx < i {
                content_of(messages@[idx as int])
            } else {
                seq![]
            }),
    {
        let c = content_chars(&messages[i]);
        if i == idx {
            instruction = c;
        } else {
            push_all(&mut context, &c);
            push_all(&mut context, &sep);
        }
    }
    (context, instruction)
}

fn replace_lit(s: &Vec<char>, p: &str, r: &str) -> (res: Vec<char>)
    ensures
        res@ == replace_all(s@, p@, r@),
{
    let pc = chars_of(p);
    let rc = chars_of(r);
    replace_chars(s, &pc, &rc)
}

/// The user's instruction without Aider's boilerplate and the ask mark, and
/// whether it asks for edits (no ask mark) rather than a question.
pub fn clean_instruction(raw: &Vec<char>) -> (res: (Vec<char>, bool))
    ensures
        res.0@ == cleaned_instruction(raw@),
        res.1 == !asks_question(raw@),
{
    let a = replace_lit(raw, ADDED_FILES_NOTE, "");
    let b = replace_lit(&a, TRUST_NOTE, "");
    let c = replace_lit(&b, OUTDATED_NOTE, "");
    let d = trim_chars(&c);
    let mark = chars_of(ASK_MODE_MARK);
    let expects_edit = !contains_chars(&d, &mark);
    let e = replace_lit(&d, ASK_MODE_MARK, "");
    (trim_chars(&e), expects_edit)
}

fn append_lit(out: &mut Vec<char>, s: &str)
    ensures
        final(out)@ == old(out)@ + s@,
{
    let cs = chars_of(s);
    push_all(out, &cs);
}

/// The repository-map XML for a repository context.
pub fn build_repo_map_xml(context: &Vec<char>) -> (res: String)
    ensures
        res@ == repo_map_xml(context@),
{
    let mut out = chars_of(XML_HEAD);
    let t = trim_chars(context);
    push_all(&mut out, &t);
    append_lit(&mut out, XML_TAIL);
    string_of(&out)
}

/// The extension of output files.
pub fn output_extension(ext: &str) -> (res: String)
    ensures
        res@ == output_ext(ext@),
{
    let cs = chars_of(ext);
    let t = trim_chars(&cs);
    let d = strip_class(&t, CharClass::Dot, true, false);
    if d.len() == 0 {
        String::from_str("xml")
    } else {
        string_of(&d)
    }
}

/// The prompt for the web LLM.
pub fn build_final_prompt(settings: &PromptSettings, instruction: &Vec<char>, expects_edit: bool) -> (res:
    String)
    ensures
        res@ == final_prompt(*settings, instruction@, expects_edit),
{
    if settings.use_custom {
        let template = if expects_edit {
            chars_of(settings.custom_edit_prompt.as_str())
        } else {
            chars_of(settings.custom_ask_prompt.as_str())
        };
        let placeholder = chars_of(INSTRUCTION_PLACEHOLDER);
        string_of(&replace_chars(&template, &placeholder, instruction))
    } else {
        let mut out = chars_of(PROMPT_HEAD);
        push_all(&mut out, instruction);
        append_lit(&mut out, PROMPT_MID);
        if expects_edit {
            append_lit(&mut out, EDIT_RULES);
        } else {
            append_lit(&mut out, ASK_RULES);
        }
        string_of(&out)
    }
}

/// A path without the `\\?\` marks, when it begins with one.
pub fn strip_unc_prefix(path: &str) -> (res: String)
    ensures
        res@ == without_unc_prefix(path@),
{
    let cs = chars_of(path);
    let unc = chars_of(UNC_PREFIX);
    if starts_with_chars(&cs, &unc) {
        string_of(&replace_lit(&cs, UNC_PREFIX, ""))
    } else {
        string_of(&cs)
    }
}

/// The repository-map XML, its file name and the prompt for a request of
/// Aider: the last user message is the instruction, every other message
/// is repository context.
pub fn plan_repo_map(messages: &Vec<ChatMessage>, output_extension_setting: &str, settings: &PromptSettings) -> (res:
    RepoMapPlan)
    ensures
        res.xml@ == repo_map_xml(repository_context(messages@)),
        res.file_name@ == "repo_map."@ + output_ext(output_extension_setting@),
        res.prompt@ == final_prompt(
            *settings,
            cleaned_instruction(raw_instruction(messages@)),
            !asks_question(raw_instruction(messages@)),
        ),
{
    let (context, raw) = split_conversation(messages);
    let (instruction, expects_edit) = clean_instruction(&raw);
    let xml = build_repo_map_xml(&context);
    let mut file_name = String::from_str("repo_map.");
    let ext = output_extension(output_extension_setting);
    file_name.append(ext.as_str());
    let prompt = build_final_prompt(settings, &instruction, expects_edit);
    RepoMapPlan { xml, file_name, prompt }
}

// ---------------------------------------------------------------------------
// Laws
// ---------------------------------------------------------------------------

/// A custom template without the `{instruction}` placeholder is used as it
/// is, whatever the instruction.
pub proof fn lemma_template_without_placeholder(
    settings: PromptSettings,
    instruction: Seq<char>,
    edit: bool,
)
    requires
        settings.use_custom,
        !contains(
            if edit {
                settings.custom_edit_prompt@
            } else {
                settings.custom_ask_prompt@
            },
            INSTRUCTION_PLACEHOLDER@,
        ),
    ensures
        final_prompt(settings, instruction, edit) == (if edit {
            settings.custom_edit_prompt@
        } else {
            settings.custom_ask_prompt@
        }),
{
    let t = if edit {
        settings.custom_edit_prompt@
    } else {
        settings.custom_ask_prompt@
    };
    lemma_replace_absent(t, INSTRUCTION_PLACEHOLDER@, instruction);
}

/// The extension of output files is never empty and never begins with a dot.
pub proof fn lemma_output_ext_shape(ext: Seq<char>)
    ensures
        output_ext(ext).len() > 0,
        output_ext(ext)[0] != '.',
{
    reveal_strlit("xml");
    lemma_strip_front_first(trim(ext), CharClass::Dot);
}

proof fn lemma_context_grows(ms: Seq<ChatMessage>, idx: int, m: int, n: int)
    requires
        0 <= m <= n,
    ensures
        context_before(ms, idx, n).len() >= context_before(ms, idx, m).len(),
        context_before(ms, idx, n).take(context_before(ms, idx, m).len() as int)
            == context_before(ms, idx, m),
    decreases n - m,
{
    if m == n {
        assert(context_before(ms, idx, n).take(context_before(ms, idx, m).len() as int)
            =~= context_before(ms, idx, m));
    } else {
        lemma_context_grows(ms, idx, m, n - 1);
        let a = context_before(ms, idx, n - 1);
        let k = context_before(ms, idx, m).len() as int;
        assert(context_before(ms, idx, n).take(k) =~= a.take(k));
    }
}

/// Every message other than the last user message, whatever its role (a
/// user message that carries Aider's repository map included), goes into
/// the repository context at its place: the context holds the contents of
/// the messages before it, then its content and a blank line; the last
/// user message adds nothing.
pub proof fn lemma_context_holds_every_other_message(ms: Seq<ChatMessage>, i: int)
    requires
        0 <= i < ms.len(),
    ensures
        i != last_user_index(ms) ==> ({
            let before = context_before(ms, last_user_index(ms), i);
            let upto = before + content_of(ms[i]) + "\n\n"@;
            &&& repository_context(ms).len() >= upto.len()
            &&& repository_context(ms).take(upto.len() as int) == upto
        }),
        i == last_user_index(ms) ==> context_before(ms, last_user_index(ms), i + 1)
            == context_before(ms, last_user_index(ms), i),
{
    let idx = last_user_index(ms);
    lemma_context_grows(ms, idx, i + 1, ms.len() as int);
    if i != idx {
        assert(context_before(ms, idx, i + 1) == context_before(ms, idx, i) + (content_of(ms[i])
            + "\n\n"@));
        assert(context_before(ms, idx, i) + (content_of(ms[i]) + "\n\n"@) =~= context_before(
            ms,
            idx,
            i,
        ) + content_of(ms[i]) + "\n\n"@);
    } else {
        assert(context_before(ms, idx, i + 1) =~= context_before(ms, idx, i));
    }
}

/// The default prompt (no custom template) is the fixed head, the
/// instruction, the separator, and the output rules of the mode: the edit
/// rules when edits are asked for, the rules for a natural-text answer
/// when a question is asked, and nothing else. The two prompts for one
/// instruction differ only in those rules.
pub proof fn lemma_default_prompt_rules(settings: PromptSettings, instruction: Seq<char>)
    requires
        !settings.use_custom,
    ensures
        final_prompt(settings, instruction, true) == PROMPT_HEAD@ + instruction + PROMPT_MID@
            + EDIT_RULES@,
        final_prompt(settings, instruction, false) == PROMPT_HEAD@ + instruction + PROMPT_MID@
            + ASK_RULES@,
        final_prompt(settings, instruction, false).len() == PROMPT_HEAD@.len()
            + instruction.len() + PROMPT_MID@.len() + ASK_RULES@.len(),
{
}

proof fn lemma_last_user_before(ms: Seq<ChatMessage>, n: int)
    requires
        0 <= n <= ms.len(),
    ensures
        (exists|j: int| 0 <= j < n && is_user(#[trigger] ms[j])) ==> ({
            let k = last_user_before(ms, n);
            &&& 0 <= k < n
            &&& is_user(ms[k])
            &&& forall|j: int| k < j < n ==> !is_user(#[trigger] ms[j])
        }),
        !(exists|j: int| 0 <= j < n && is_user(#[trigger] ms[j])) ==> last_user_before(ms, n)
            == 0,
    decreases n,
{
    if n > 0 {
        lemma_last_user_before(ms, n - 1);
        if !is_user(ms[n - 1]) && exists|j: int| 0 <= j < n && is_user(#[trigger] ms[j]) {
            let j = choose|j: int| 0 <= j < n && is_user(#[trigger] ms[j]);
            assert(j < n - 1);
        }
    }
}

/// The instruction is the last user message: when the conversation has a
/// user message, the message at `last_user_index` is from the user and no
/// later message is; without one, the index is 0.
pub proof fn lemma_last_user_index(ms: Seq<ChatMessage>)
    ensures
        (exists|j: int| 0 <= j < ms.len() && is_user(#[trigger] ms[j])) ==> ({
            let k = last_user_index(ms);
            &&& 0 <= k < ms.len()
            &&& is_user(ms[k])
            &&& forall|j: int| k < j < ms.len() ==> !is_user(#[trigger] ms[j])
        }),
        !(exists|j: int| 0 <= j < ms.len() && is_user(#[trigger] ms[j])) ==> last_user_index(ms)
            == 0,
{
    lemma_last_user_before(ms, ms.len() as int);
}

} // verus!
