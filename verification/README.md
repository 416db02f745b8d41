# promptproxy

The verified core of PromptProxy, a desktop tool that lets the local AI
coding tool Aider work with the large context windows of web LLMs. The
library is written in Verus; its functions carry contracts that Verus
proves. The exceptions are the few thin wrappers around outside code,
marked `#[verifier::external_body]`, whose contracts are assumed: the calls
of `str::to_lowercase`, `String::push` and `String::from_utf8_lossy`, and
the two that look a label up with `encoding_rs` and decode or encode with
the encoding found. `std::sync::Mutex` is declared as an opaque type.

- `src/text.rs` – character-sequence utilities (Unicode white space, `trim`,
  search, `replace`, words, lines, decimal numerals).
- `src/encoding.rs` – encoding labels for Rust and Python, decoding and
  encoding file text through `encoding_rs`.
- `src/pack.rs` – packing target files into XML chunks that stay within a
  size limit, with line-numbered sections.
- `src/line_endings.rs`, `src/patch.rs` – finding the file a SEARCH/REPLACE
  block is for and preparing the patch with that file's line endings and
  encoding.
- `src/prompt.rs` – turning Aider's request into a repository-map XML file
  and a prompt for the web LLM.
- `src/aider.rs`, `src/shutdown.rs` – Aider command lines, process ids and
  graceful shutdown.
- `src/config.rs` – the settings kept in `config.json`.

`app/` holds the Tauri application around the library (commands, child
processes, the local HTTP server, file I/O). `tests/` runs the library on
concrete inputs.
