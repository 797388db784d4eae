# miniswe_tools

The file-editing tools of a coding agent, as a library whose behaviour is stated in
contracts and proved by Verus.

- `src/` is the library. It holds no input or output: a tool's call is read into a
  request, what it makes of a file held in memory is worked out, and the answer is put
  together. Where a tool has to ask a model or a language server in between, the library
  says what is asked next and takes the reply.
  - `edit_file/` – planned edits: the plan and patch formats, their application, the
    search for text that moved, and the attempts around them.
  - `fast/` – edits by line number: revisions of every file, the syntax check, and the
    feedback behind every edit.
  - `edit.rs`, `edit_orchestration.rs`, `cargo_check.rs`, `code_intel.rs`,
    `describe_code.rs`, `delete_file.rs`, `dispatch.rs`, `definitions.rs`,
    `refactor.rs` – the other tools, and the choice between them.
  - `text.rs`, `bytes.rs`, `number.rs`, `order.rs`, `unicode.rs`, `args.rs` – what they
    share.
- `tests/` runs the library on concrete values.
- `app/` is the ordinary Rust around it: files, processes, the language server, the
  model, and decisions by floating-point similarity.

Public proof functions state what holds of the library as a whole, such as that a plan
reads back from its text (`edit_file::written::plan_reads_back`) or that going back to a
revision restores it (`fast::revisions::revert_makes_current`).
