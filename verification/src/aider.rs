//! The Aider side: the session the user started, the processes that run,
//! and the command lines that launch Aider against the local API.

use vstd::prelude::*;
use std::sync::Mutex;
use crate::encoding::{ascii_lowercase, is_ascii_text, resolved_labels};
use crate::text::{
    decimal, lemma_trim_idempotent, push_decimal, split_words_str, trim, trim_str, words,
};

verus! {

broadcast use vstd::string::group_string_axioms;

/// Declares `std::sync::Mutex` so that the process and session states can
/// hold one; nothing is claimed of its behaviour, and the library never
/// locks it (the application does).
#[verifier::external_type_specification]
#[verifier::external_body]
#[verifier::reject_recursive_types(T)]
pub struct ExMutex<T: ?Sized>(std::sync::Mutex<T>);

/// The process ids of the Aider processes that are running.
pub struct AiderProcessState(pub Mutex<Vec<u32>>);

/// The settings of the last batch run, kept for later operations.
pub struct AiderSession {
    pub target_dir: String,
    pub files: String,
    pub message: String,
    pub chat_language: String,
    pub aider_path: String,
    pub file_encoding: String,
    pub git_path: String,
    pub map_tokens: String,
    pub output_extension: String,
    pub api_port: u16,
}

/// The session of the last batch run, if any.
pub struct AiderSessionState(pub Mutex<Option<AiderSession>>);

/// The port the local API listens on for a session; 8080 when there is none.
pub fn session_api_port(session: &Option<AiderSession>) -> (res: u16)
    ensures
        res == match session {
            Some(s) => s.api_port,
            None => 8080u16,
        },
{
    match session {
        Some(s) => s.api_port,
        None => 8080,
    }
}

// ---------------------------------------------------------------------------
// Process ids
// ---------------------------------------------------------------------------

/// `pids` without the entries equal to `pid`, the others in order.
pub open spec fn without_pid(pids: Seq<u32>, pid: u32) -> Seq<u32>
    decreases pids.len(),
{
    if pids.len() == 0 {
        seq![]
    } else if pids.last() == pid {
        without_pid(pids.drop_last(), pid)
    } else {
        without_pid(pids.drop_last(), pid).push(pids.last())
    }
}

/// Records a started process.
pub fn register_pid(pids: &mut Vec<u32>, pid: u32)
    ensures
        final(pids)@ == old(pids)@.push(pid),
{
    pids.push(pid);
}

/// Forgets a finished process (every entry with its id).
pub fn release_pid(pids: &mut Vec<u32>, pid: u32)
    ensures
        final(pids)@ == without_pid(old(pids)@, pid),
{
    let mut kept: Vec<u32> = Vec::new();
    let n = pids.len();
    for i in 0..n
        invariant
            n == pids@.len(),
            kept@ == without_pid(pids@.take(i as int), pid),
    {
        assert(pids@.take(i + 1).drop_last() == pids@.take(i as int));
        if pids[i] != pid {
            kept.push(pids[i]);
        }
    }
    assert(pids@.take(n as int) == pids@);
    *pids = kept;
}

/// Takes all recorded processes, leaving none.
pub fn take_all_pids(pids: &mut Vec<u32>) -> (res: Vec<u32>)
    ensures
        res@ == old(pids)@,
        final(pids)@.len() == 0,
{
    let mut res: Vec<u32> = Vec::new();
    std::mem::swap(pids, &mut res);
    res
}

// ---------------------------------------------------------------------------
// Command lines
// ---------------------------------------------------------------------------

/// A program and its arguments.
pub struct CommandLine {
    pub program: String,
    pub args: Vec<String>,
}

/// The words of the configured Aider command.
pub open spec fn command_words(aider_path: Seq<char>) -> Seq<Seq<char>> {
    words(trim(aider_path))
}

/// The program: the first word of the Aider command, `aider` when it is blank.
pub open spec fn program_of(aider_path: Seq<char>) -> Seq<char> {
    if command_words(aider_path).len() > 0 {
        command_words(aider_path)[0]
    } else {
        "aider"@
    }
}

/// The arguments that the Aider command itself carries (its other words).
pub open spec fn leading_args(aider_path: Seq<char>) -> Seq<Seq<char>> {
    if command_words(aider_path).len() > 0 {
        command_words(aider_path).drop_first()
    } else {
        seq![]
    }
}

/// The base URL of the local OpenAI-compatible API.
pub open spec fn api_base(port: u16) -> Seq<char> {
    "http://127.0.0.1:"@ + decimal(port as nat) + "/v1"@
}

/// The arguments that point Aider at the local API with a dummy key and model.
pub open spec fn local_api_args(port: u16) -> Seq<Seq<char>> {
    seq![
        "--openai-api-base"@,
        api_base(port),
        "--openai-api-key"@,
        "dummy"@,
        "--model"@,
        "gpt-4o"@,
    ]
}

/// `flag value` when `value` is not empty, nothing otherwise.
pub open spec fn optional_arg(flag: Seq<char>, value: Seq<char>) -> Seq<Seq<char>> {
    if value.len() > 0 {
        seq![flag, value]
    } else {
        seq![]
    }
}

/// The arguments of a batch run that asks Aider for the repository map and
/// the prompt (Aider's own edit format off, no commits, no network checks).
pub open spec fn batch_args(
    aider_path: Seq<char>,
    api_port: u16,
    map_tokens: Seq<char>,
    message_file: Seq<char>,
    chat_language: Seq<char>,
    file_encoding: Seq<char>,
) -> Seq<Seq<char>> {
    leading_args(aider_path) + local_api_args(api_port) + seq![
        "--edit-format"@,
        "ask"@,
        "--no-stream"@,
        "--no-auto-commits"@,
        "--yes"@,
        "--no-analytics"@,
        "--no-show-release-notes"@,
        "--no-check-update"@,
    ] + optional_arg("--map-tokens"@, trim(map_tokens)) + seq!["--message-file"@, message_file]
        + optional_arg("--chat-language"@, trim(chat_language)) + optional_arg(
        "--encoding"@,
        resolved_labels(trim(file_encoding)).1,
    )
}

/// The arguments of a run that applies a patch file offline.
pub open spec fn apply_args(
    aider_path: Seq<char>,
    api_port: u16,
    patch_file: Seq<char>,
    file_encoding: Seq<char>,
) -> Seq<Seq<char>> {
    leading_args(aider_path) + local_api_args(api_port) + seq![
        "--apply"@,
        patch_file,
        "--yes"@,
        "--no-analytics"@,
        "--no-auto-commits"@,
        "--no-show-release-notes"@,
        "--no-check-update"@,
    ] + optional_arg("--encoding"@, resolved_labels(trim(file_encoding)).1)
}

fn push_arg(args: &mut Vec<String>, a: &str)
    ensures
        final(args).deep_view() == old(args).deep_view().push(a@),
{
    let ghost before = args.deep_view();
    args.push(String::from_str(a));
    assert(args.deep_view() =~= before.push(a@));
}

fn push_owned_arg(args: &mut Vec<String>, a: String)
    ensures
        final(args).deep_view() == old(args).deep_view().push(a@),
{
    let ghost before = args.deep_view();
    let ghost av = a@;
    args.push(a);
    assert(args.deep_view() =~= before.push(av));
}

fn push_optional_arg(args: &mut Vec<String>, flag: &str, value: String)
    ensures
        final(args).deep_view() == old(args).deep_view() + optional_arg(flag@, value@),
{
    if !value.as_str().is_empty() {
        let ghost before = args.deep_view();
        push_arg(args, flag);
        push_owned_arg(args, value);
        assert(args.deep_view() =~= before + optional_arg(flag@, value@));
    } else {
        assert(args.deep_view() =~= args.deep_view() + optional_arg(flag@, value@));
    }
}

/// The base URL of the local API for `port`.
pub fn api_base_url(port: u16) -> (res: String)
    ensures
        res@ == api_base(port),
{
    let mut s = String::from_str("http://127.0.0.1:");
    push_decimal(&mut s, port as u128);
    s.append("/v1");
    s
}

fn push_local_api_args(args: &mut Vec<String>, port: u16)
    ensures
        final(args).deep_view() == old(args).deep_view() + local_api_args(port),
{
    let ghost before = args.deep_view();
    push_arg(args, "--openai-api-base");
    push_owned_arg(args, api_base_url(port));
    push_arg(args, "--openai-api-key");
    push_arg(args, "dummy");
    push_arg(args, "--model");
    push_arg(args, "gpt-4o");
    assert(args.deep_view() =~= before + local_api_args(port));
}

/// The program of the Aider command and the arguments it carries.
fn command_start(aider_path: &str) -> (res: CommandLine)
    ensures
        res.program@ == program_of(aider_path@),
        res.args.deep_view() == leading_args(aider_path@),
{
    let trimmed = trim_str(aider_path);
    let mut ws = split_words_str(trimmed.as_str());
    if ws.len() > 0 {
        let ghost wv = ws.deep_view();
        let program = ws.remove(0);
        assert(ws.deep_view() =~= wv.drop_first());
        CommandLine { program, args: ws }
    } else {
        let args: Vec<String> = Vec::new();
        assert(args.deep_view() =~= Seq::<Seq<char>>::empty());
        CommandLine { program: String::from_str("aider"), args }
    }
}

/// The command line of a batch run: Aider reads the message from
/// `message_file` and talks to the local API on `api_port`.
pub fn batch_command(
    aider_path: &str,
    api_port: u16,
    map_tokens: &str,
    message_file: &str,
    chat_language: &str,
    file_encoding: &str,
) -> (res: CommandLine)
    ensures
        res.program@ == program_of(aider_path@),
        res.args.deep_view() == batch_args(
            aider_path@,
            api_port,
            map_tokens@,
            message_file@,
            chat_language@,
            file_encoding@,
        ),
{
    let mut cmd = command_start(aider_path);
    let ghost start = cmd.args.deep_view();
    push_local_api_args(&mut cmd.args, api_port);
    let ghost with_api = cmd.args.deep_view();
    push_arg(&mut cmd.args, "--edit-format");
    push_arg(&mut cmd.args, "ask");
    push_arg(&mut cmd.args, "--no-stream");
    push_arg(&mut cmd.args, "--no-auto-commits");
    push_arg(&mut cmd.args, "--yes");
    push_arg(&mut cmd.args, "--no-analytics");
    push_arg(&mut cmd.args, "--no-show-release-notes");
    push_arg(&mut cmd.args, "--no-check-update");
    assert(cmd.args.deep_view() =~= with_api + seq![
        "--edit-format"@,
        "ask"@,
        "--no-stream"@,
        "--no-auto-commits"@,
        "--yes"@,
        "--no-analytics"@,
        "--no-show-release-notes"@,
        "--no-check-update"@,
    ]);
    push_optional_arg(&mut cmd.args, "--map-tokens", trim_str(map_tokens));
    let ghost with_tokens = cmd.args.deep_view();
    push_arg(&mut cmd.args, "--message-file");
    push_arg(&mut cmd.args, message_file);
    assert(cmd.args.deep_view() =~= with_tokens + seq!["--message-file"@, message_file@]);
    push_optional_arg(&mut cmd.args, "--chat-language", trim_str(chat_language));
    let enc = trim_str(file_encoding);
    let (_, python) = crate::encoding::resolve_encoding_labels(enc.as_str());
    push_optional_arg(&mut cmd.args, "--encoding", python);
    cmd
}

/// The command line of a run that applies `patch_file` to the target
/// directory, with Aider pointed at the local API on `api_port` so that it
/// makes no outside connection.
pub fn apply_command(aider_path: &str, api_port: u16, patch_file: &str, file_encoding: &str) -> (res:
    CommandLine)
    ensures
        res.program@ == program_of(aider_path@),
        res.args.deep_view() == apply_args(aider_path@, api_port, patch_file@, file_encoding@),
{
    let mut cmd = command_start(aider_path);
    push_local_api_args(&mut cmd.args, api_port);
    let ghost with_api = cmd.args.deep_view();
    push_arg(&mut cmd.args, "--apply");
    push_arg(&mut cmd.args, patch_file);
    push_arg(&mut cmd.args, "--yes");
    push_arg(&mut cmd.args, "--no-analytics");
    push_arg(&mut cmd.args, "--no-auto-commits");
    push_arg(&mut cmd.args, "--no-show-release-notes");
    push_arg(&mut cmd.args, "--no-check-update");
    assert(cmd.args.deep_view() =~= with_api + seq![
        "--apply"@,
        patch_file@,
        "--yes"@,
        "--no-analytics"@,
        "--no-auto-commits"@,
        "--no-show-release-notes"@,
        "--no-check-update"@,
    ]);
    let enc = trim_str(file_encoding);
    let (_, python) = crate::encoding::resolve_encoding_labels(enc.as_str());
    push_optional_arg(&mut cmd.args, "--encoding", python);
    cmd
}

/// The `PATH` for Aider: the Git directory (trimmed), when one is given,
/// put in front of `path_env` with the platform's separator (`;` on
/// Windows, `:` elsewhere).
pub open spec fn search_path(git_path: Seq<char>, path_env: Seq<char>, windows: bool) -> Seq<char> {
    if trim(git_path).len() > 0 {
        trim(git_path) + (if windows {
            ";"@
        } else {
            ":"@
        }) + path_env
    } else {
        path_env
    }
}

/// The `PATH` for Aider, with the Git directory in front when one is given.
pub fn path_with_git(git_path: &str, path_env: &str, windows: bool) -> (res: String)
    ensures
        res@ == search_path(git_path@, path_env@, windows),
{
    let g = trim_str(git_path);
    if !g.as_str().is_empty() {
        let mut s = g;
        if windows {
            s.append(";");
        } else {
            s.append(":");
        }
        s.append(path_env);
        s
    } else {
        String::from_str(path_env)
    }
}

/// A file name made of a stem, a number and an extension, such as
/// `target_files_3.xml`.
pub fn numbered_file_name(stem: &str, n: u128, ext: &str) -> (res: String)
    ensures
        res@ == stem@ + decimal(n as nat) + "."@ + ext@,
{
    let mut s = String::from_str(stem);
    push_decimal(&mut s, n);
    s.append(".");
    s.append(ext);
    s
}

/// The greeting of the demo command.
pub fn greet(name: &str) -> (res: String)
    ensures
        res@ == "Hello, "@ + name@ + "! You've been greeted from Rust!"@,
{
    let mut s = String::from_str("Hello, ");
    s.append(name);
    s.append("! You've been greeted from Rust!");
    s
}

// ---------------------------------------------------------------------------
// Laws
// ---------------------------------------------------------------------------

/// Forgetting a process removes its id and keeps every other id.
pub proof fn lemma_release_pid(pids: Seq<u32>, pid: u32, other: u32)
    ensures
        !without_pid(pids, pid).contains(pid),
        other != pid ==> (without_pid(pids, pid).contains(other) <==> pids.contains(other)),
    decreases pids.len(),
{
    if pids.len() > 0 {
        let init = pids.drop_last();
        lemma_release_pid(init, pid, other);
        assert(pids =~= init.push(pids.last()));
        if pids.last() != pid {
            let w = without_pid(init, pid);
            assert(forall|x: u32| w.push(pids.last()).contains(x) <==> (w.contains(x) || x == pids.last())) by {
                assert forall|x: u32| w.push(pids.last()).contains(x) implies (w.contains(x) || x == pids.last()) by {
                    let j = choose|j: int| 0 <= j < w.push(pids.last()).len() && w.push(pids.last())[j] == x;
                    if j < w.len() {
                        assert(w[j] == x);
                    }
                }
                assert forall|x: u32| (w.contains(x) || x == pids.last()) implies w.push(pids.last()).contains(x) by {
                    if x == pids.last() {
                        assert(w.push(pids.last())[w.len() as int] == x);
                    } else {
                        let j = choose|j: int| 0 <= j < w.len() && w[j] == x;
                        assert(w.push(pids.last())[j] == x);
                    }
                }
            }
        }
        assert(forall|x: u32| pids.contains(x) <==> (init.contains(x) || x == pids.last())) by {
            assert forall|x: u32| pids.contains(x) implies (init.contains(x) || x == pids.last()) by {
                let j = choose|j: int| 0 <= j < pids.len() && pids[j] == x;
                if j < init.len() {
                    assert(init[j] == x);
                }
            }
            assert forall|x: u32| (init.contains(x) || x == pids.last()) implies pids.contains(x) by {
                if x == pids.last() {
                    assert(pids[pids.len() - 1] == x);
                } else {
                    let j = choose|j: int| 0 <= j < init.len() && init[j] == x;
                    assert(pids[j] == x);
                }
            }
        }
    }
}

/// Every command line for applying a patch points Aider at the local API
/// and turns off automatic commits, so that applying is offline.
pub proof fn lemma_apply_stays_local(
    aider_path: Seq<char>,
    api_port: u16,
    patch_file: Seq<char>,
    file_encoding: Seq<char>,
)
    ensures
        ({
            let args = apply_args(aider_path, api_port, patch_file, file_encoding);
            let k = leading_args(aider_path).len() as int;
            &&& args[k] == "--openai-api-base"@
            &&& args[k + 1] == api_base(api_port)
            &&& args[k + 6] == "--apply"@
            &&& args[k + 7] == patch_file
            &&& args[k + 10] == "--no-auto-commits"@
        }),
{
}

/// Every batch run points Aider at the local API, turns Aider's own edit
/// format off (`--edit-format ask`), and gives it the message file.
pub proof fn lemma_batch_uses_local_api_and_ask_format(
    aider_path: Seq<char>,
    api_port: u16,
    map_tokens: Seq<char>,
    message_file: Seq<char>,
    chat_language: Seq<char>,
    file_encoding: Seq<char>,
)
    ensures
        ({
            let args = batch_args(
                aider_path,
                api_port,
                map_tokens,
                message_file,
                chat_language,
                file_encoding,
            );
            let k = leading_args(aider_path).len() as int;
            let m = optional_arg("--map-tokens"@, trim(map_tokens)).len() as int;
            &&& args[k] == "--openai-api-base"@
            &&& args[k + 1] == api_base(api_port)
            &&& args[k + 6] == "--edit-format"@
            &&& args[k + 7] == "ask"@
            &&& args[k + 14 + m] == "--message-file"@
            &&& args[k + 15 + m] == message_file
        }),
{
}

/// When Aider applies a patch, the last two arguments pass it the chosen
/// encoding under the label Python knows (the second label of
/// `resolve_encoding_labels`), whenever that label is not empty.
pub proof fn lemma_apply_passes_python_encoding(
    aider_path: Seq<char>,
    api_port: u16,
    patch_file: Seq<char>,
    file_encoding: Seq<char>,
)
    requires
        resolved_labels(trim(file_encoding)).1.len() > 0,
    ensures
        ({
            let a = apply_args(aider_path, api_port, patch_file, file_encoding);
            &&& a.len() >= 2
            &&& a[a.len() - 2] == "--encoding"@
            &&& a[a.len() - 1] == resolved_labels(trim(file_encoding)).1
        }),
{
}

/// A name of the Shift_JIS family (`cp932`, `sjis`, `shift_jis`,
/// `windows-31j`, in any letter case, with any white space around) reaches
/// Aider as `cp932`, the name Python knows, when a patch is applied.
pub proof fn lemma_apply_shift_jis_as_cp932(
    aider_path: Seq<char>,
    api_port: u16,
    patch_file: Seq<char>,
    file_encoding: Seq<char>,
)
    requires
        is_ascii_text(trim(file_encoding)),
        ascii_lowercase(trim(file_encoding)) == "cp932"@ || ascii_lowercase(trim(file_encoding))
            == "sjis"@ || ascii_lowercase(trim(file_encoding)) == "shift_jis"@ || ascii_lowercase(
            trim(file_encoding),
        ) == "windows-31j"@,
    ensures
        ({
            let a = apply_args(aider_path, api_port, patch_file, file_encoding);
            &&& a.len() >= 2
            &&& a[a.len() - 2] == "--encoding"@
            &&& a[a.len() - 1] == "cp932"@
        }),
{
    lemma_trim_idempotent(file_encoding);
    reveal_strlit("cp932");
    assert(resolved_labels(trim(file_encoding)).1 == "cp932"@);
}

} // verus!
