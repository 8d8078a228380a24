# psn

`psn` is a terminal process browser: it shows the running processes as a tree, filters
them by name or command line, and sends Unix signals to the selected process after a
confirmation.

## Layout

- `src/` is the library, written in Verus. Its functions carry contracts that Verus proves,
  except a handful of thin wrappers around calls into other crates and std, whose contracts
  Verus takes on trust (they are marked `#[verifier::external_body]`, each with a doc
  comment saying what is claimed):
  - `process::build_case_insensitive_regex`, `process::regex_find_any` and
    `process::regex_find_spans` (the `regex` crate: building, `is_match`, `find_iter`);
  - `process::to_lowercase` (`str::to_lowercase`);
  - `process::lookup_user_name` (`users::get_user_by_uid`; nothing is claimed of the answer);
  - `text::push_char` and `text::pop_char` (`String::push`, `String::pop`);
  - the declaration of `regex::Regex` as a type Verus may carry, and the named results
    `regex_builds`, `regex_build_error`, `regex_is_match`, `regex_match_spans` and
    `unicode_lowercase`, of which only what those wrappers state is known.

  The modules:
  - `cli`: command-line parsing, help and version text;
  - `process`: row ordering and stable sorting, filter compilation and matching, command
    lines, ancestor chains and user names;
  - `tree`: the process tree as drawn, with connector prefixes and collapsed subtrees;
  - `app`: the application state (selection, refresh, navigation, collapse, signal
    confirmation) and its laws;
  - `runtime`: key bindings and the effect of every action, including the filter prompt;
    the contracts name the calls each action makes;
  - `effects`: the callbacks that read rows, deliver signals and wait for a signalled
    process, behind a record of every call made through them;
  - `recorded`: a terminal behind a record of every mode change made on it;
  - `signal`, `terminal`, `ui`, `demo`, `text`, `model`: signals and the wait for a
    signalled process, the terminal lifecycle, screen texts and highlighting, synthetic
    rows, text helpers and the row type.
- `app/` is the program around the library: reading processes from the system, delivering
  signals, drawing with ratatui and running the event loop.
- `tests/` exercises the library on concrete values.
