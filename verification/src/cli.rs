//! Command-line parsing and help/version text.

use vstd::prelude::*;

use crate::text::{same_text, starts_with_dash};

verus! {

/// Parsed command mode for process execution.
#[derive(Clone, Debug, PartialEq, Eq)]
pub enum CliCommand {
    /// Run the process table with an optional process filter.
    Run {
        /// Process filter text.
        filter: Option<String>,
        /// Whether the filter is a regular expression (given with `-r`).
        regex_mode: bool,
        /// Whether only the current user's processes are shown. No command-line option asks
        /// for it, so parsing always gives `false`.
        user_only: bool,
    },
    /// Print usage instructions and exit.
    Help,
    /// Print version text and exit.
    Version,
}

/// Why the command line was rejected.
#[derive(Clone, Debug, PartialEq, Eq)]
pub enum CliError {
    /// An argument starting with `-` that is no known option.
    UnknownOption(String),
    /// Both help and version were asked for.
    HelpAndVersion,
    /// Help was asked for together with a filter.
    HelpWithFilter,
    /// Version was asked for together with a filter.
    VersionWithFilter,
    /// More than one filter was given.
    TooManyPositionals,
    /// `-r` was the last argument, with no pattern after it.
    MissingPattern,
}

/// Text of a command-line error.
pub open spec fn cli_error_message(err: CliError) -> Seq<char> {
    match err {
        CliError::UnknownOption(arg) => "unknown option: "@ + arg@,
        CliError::HelpAndVersion => "cannot combine --help and --version"@,
        CliError::HelpWithFilter => "--help does not accept FILTER"@,
        CliError::VersionWithFilter => "--version does not accept FILTER"@,
        CliError::TooManyPositionals => "too many positional arguments; expected at most one FILTER"@,
        CliError::MissingPattern => "-r requires a PATTERN"@,
    }
}

impl CliError {
    /// Human-readable description of the error.
    pub fn message(&self) -> (r: String)
        ensures
            r@ == cli_error_message(*self),
    {
        match self {
            CliError::UnknownOption(arg) => {
                let mut text = String::from_str("unknown option: ");
                text.append(arg.as_str());
                text
            },
            CliError::HelpAndVersion => String::from_str("cannot combine --help and --version"),
            CliError::HelpWithFilter => String::from_str("--help does not accept FILTER"),
            CliError::VersionWithFilter => String::from_str("--version does not accept FILTER"),
            CliError::TooManyPositionals => String::from_str(
                "too many positional arguments; expected at most one FILTER",
            ),
            CliError::MissingPattern => String::from_str("-r requires a PATTERN"),
        }
    }
}

/// `-h` or `--help`.
pub open spec fn is_help_flag(arg: Seq<char>) -> bool {
    arg == "-h"@ || arg == "--help"@
}

/// `-v` or `--version`.
pub open spec fn is_version_flag(arg: Seq<char>) -> bool {
    arg == "-v"@ || arg == "--version"@
}

/// `-r`, which takes the next argument as a regular-expression filter.
pub open spec fn is_regex_flag(arg: Seq<char>) -> bool {
    arg == "-r"@
}

/// The arguments after the program name.
pub open spec fn operands(args: Seq<String>) -> Seq<String> {
    if args.len() == 0 {
        args
    } else {
        args.drop_first()
    }
}

/// What the arguments read so far ask for.
pub struct ScanState {
    /// Help was asked for.
    pub help: bool,
    /// Version was asked for.
    pub version: bool,
    /// Filters given, bare or after `-r`, in order.
    pub filters: Seq<String>,
    /// A filter was given after `-r`.
    pub regex: bool,
}

/// Nothing read yet.
pub open spec fn scan_start() -> ScanState {
    ScanState { help: false, version: false, filters: Seq::empty(), regex: false }
}

/// Read the arguments from position `i` on, left to right: `-h`/`--help` and
/// `-v`/`--version` set their flag; `-r` takes the next argument as a regex filter (an error
/// when there is none); any other argument starting with `-` is an unknown option and stops
/// the reading; anything else is a filter.
pub open spec fn scan(ops: Seq<String>, i: nat, st: ScanState) -> Result<ScanState, CliError>
    decreases ops.len() - i,
{
    if i >= ops.len() {
        Ok(st)
    } else {
        let arg = ops[i as int];
        if is_help_flag(arg@) {
            scan(ops, i + 1, ScanState { help: true, ..st })
        } else if is_version_flag(arg@) {
            scan(ops, i + 1, ScanState { version: true, ..st })
        } else if is_regex_flag(arg@) {
            if i + 1 < ops.len() {
                scan(
                    ops,
                    i + 2,
                    ScanState { filters: st.filters.push(ops[i + 1 as int]), regex: true, ..st },
                )
            } else {
                Err(CliError::MissingPattern)
            }
        } else if arg@.len() > 0 && arg@[0] == '-' {
            Err(CliError::UnknownOption(arg))
        } else {
            scan(ops, i + 1, ScanState { filters: st.filters.push(arg), ..st })
        }
    }
}

/// The command asked for once every argument is read: help and version exclude each other
/// and any filter; otherwise at most one filter runs the table, in regex mode when it came
/// after `-r`.
pub open spec fn decide(st: ScanState) -> Result<CliCommand, CliError> {
    if st.help && st.version {
        Err(CliError::HelpAndVersion)
    } else if st.help {
        if st.filters.len() > 0 {
            Err(CliError::HelpWithFilter)
        } else {
            Ok(CliCommand::Help)
        }
    } else if st.version {
        if st.filters.len() > 0 {
            Err(CliError::VersionWithFilter)
        } else {
            Ok(CliCommand::Version)
        }
    } else if st.filters.len() == 0 {
        Ok(CliCommand::Run { filter: None, regex_mode: false, user_only: false })
    } else if st.filters.len() == 1 {
        Ok(CliCommand::Run { filter: Some(st.filters[0]), regex_mode: st.regex, user_only: false })
    } else {
        Err(CliError::TooManyPositionals)
    }
}

/// What the command line means: the reading's error, or the command it decides.
pub open spec fn parse_outcome(args: Seq<String>) -> Result<CliCommand, CliError> {
    match scan(operands(args), 0, scan_start()) {
        Err(e) => Err(e),
        Ok(st) => decide(st),
    }
}

/// Parse command-line arguments, the program name first.
pub fn parse_args(args: &[String]) -> (r: Result<CliCommand, CliError>)
    ensures
        r == parse_outcome(args@),
{
    let ghost ops = operands(args@);
    let mut positional: Vec<String> = Vec::new();
    let mut wants_help = false;
    let mut wants_version = false;
    let mut regex_mode = false;
    let mut k: usize = 1;
    proof {
        reveal_strlit("-h");
        reveal_strlit("--help");
        reveal_strlit("-v");
        reveal_strlit("--version");
        reveal_strlit("-r");
    }
    while k < args.len()
        invariant
            1 <= k,
            ops == operands(args@),
            args@.len() > 0 ==> ops.len() == args@.len() - 1,
            args@.len() == 0 ==> ops.len() == 0,
            scan(ops, 0, scan_start()) == scan(
                ops,
                (k - 1) as nat,
                ScanState {
                    help: wants_help,
                    version: wants_version,
                    filters: positional@,
                    regex: regex_mode,
                },
            ),
            "-h"@ == seq!['-', 'h'],
            "--help"@ == seq!['-', '-', 'h', 'e', 'l', 'p'],
            "-v"@ == seq!['-', 'v'],
            "--version"@ == seq!['-', '-', 'v', 'e', 'r', 's', 'i', 'o', 'n'],
            "-r"@ == seq!['-', 'r'],
        decreases args@.len() - k,
    {
        let arg = &args[k];
        let ghost j = (k - 1) as nat;
        let ghost st = ScanState {
            help: wants_help,
            version: wants_version,
            filters: positional@,
            regex: regex_mode,
        };
        assert(ops[j as int] == *arg);
        let is_help = same_text(arg.as_str(), "-h") || same_text(arg.as_str(), "--help");
        let is_version = same_text(arg.as_str(), "-v") || same_text(arg.as_str(), "--version");
        let is_regex = same_text(arg.as_str(), "-r");
        assert(is_help ==> !is_version_flag(arg@) && !is_regex_flag(arg@));
        assert(is_version ==> !is_regex_flag(arg@));
        if is_help {
            wants_help = true;
            k = k + 1;
        } else if is_version {
            wants_version = true;
            k = k + 1;
        } else if is_regex {
            if k + 1 < args.len() {
                assert(ops[j as int + 1] == args@[k + 1]);
                positional.push(args[k + 1].clone());
                regex_mode = true;
                k = k + 2;
            } else {
                return Err(CliError::MissingPattern);
            }
        } else if starts_with_dash(arg.as_str()) {
            return Err(CliError::UnknownOption(arg.clone()));
        } else {
            positional.push(arg.clone());
            k = k + 1;
        }
    }
    proof {
        let st = ScanState {
            help: wants_help,
            version: wants_version,
            filters: positional@,
            regex: regex_mode,
        };
        assert(scan(ops, (k - 1) as nat, st) == Ok::<ScanState, CliError>(st));
    }
    if wants_help && wants_version {
        return Err(CliError::HelpAndVersion);
    }
    if wants_help {
        if positional.len() > 0 {
            return Err(CliError::HelpWithFilter);
        }
        return Ok(CliCommand::Help);
    }
    if wants_version {
        if positional.len() > 0 {
            return Err(CliError::VersionWithFilter);
        }
        return Ok(CliCommand::Version);
    }
    if positional.len() == 0 {
        Ok(CliCommand::Run { filter: None, regex_mode: false, user_only: false })
    } else if positional.len() == 1 {
        Ok(CliCommand::Run { filter: Some(positional.remove(0)), regex_mode, user_only: false })
    } else {
        Err(CliError::TooManyPositionals)
    }
}

/// The version text.
pub open spec fn version_message() -> Seq<char> {
    "psn v0.1.0\nprocess status navigator\napache v2 (c) 2026 l5yth"@
}

/// The help text: the version text, then usage and options, one item per line.
pub open spec fn help_message() -> Seq<char> {
    version_message() + "\n\npsn [OPTIONS] [FILTER]\nusage: psn <FILTER>\nusage: psn [OPTIONS] -r <PATTERN>\n\nTerminal UI for browsing process status and sending Unix signals.\n\nOptions:\n  -r <PATTERN>   Filter by a case-insensitive regular expression\n  -h, --help     Show usage instructions\n  -v, --version  Show version"@
}

/// Render version text.
pub fn version_text() -> (r: String)
    ensures
        r@ == version_message(),
{
    String::from_str("psn v0.1.0\nprocess status navigator\napache v2 (c) 2026 l5yth")
}

/// Render help text.
pub fn help_text() -> (r: String)
    ensures
        r@ == help_message(),
{
    let mut text = version_text();
    text.append(
        "\n\npsn [OPTIONS] [FILTER]\nusage: psn <FILTER>\nusage: psn [OPTIONS] -r <PATTERN>\n\nTerminal UI for browsing process status and sending Unix signals.\n\nOptions:\n  -r <PATTERN>   Filter by a case-insensitive regular expression\n  -h, --help     Show usage instructions\n  -v, --version  Show version",
    );
    text
}

/// The program name never changes what a command line means: any two names before the same
/// arguments give the same command or the same error.
pub proof fn lemma_program_name_is_ignored(first: String, second: String, rest: Seq<String>)
    ensures
        parse_outcome(seq![first] + rest) == parse_outcome(seq![second] + rest),
{
    assert(operands(seq![first] + rest) =~= rest);
    assert(operands(seq![second] + rest) =~= rest);
}

/// An argument that starts with `-`.
pub open spec fn is_dashed(arg: Seq<char>) -> bool {
    arg.len() > 0 && arg[0] == '-'
}

/// An argument that starts with `-` and is no option this command line knows.
pub open spec fn is_unknown_option(arg: Seq<char>) -> bool {
    is_dashed(arg) && !is_help_flag(arg) && !is_version_flag(arg) && !is_regex_flag(arg)
}

/// Whether an argument does not start with `-`.
pub open spec fn is_bare() -> spec_fn(String) -> bool {
    |a: String| !is_dashed(a@)
}

/// The arguments that do not start with `-`, in order: the filters, when no `-r` is given.
pub open spec fn bare_arguments(ops: Seq<String>) -> Seq<String> {
    ops.filter(is_bare())
}

/// Some argument from position `i` on is spelled `short` or `long`.
pub open spec fn some_from(ops: Seq<String>, i: int, short: Seq<char>, long: Seq<char>) -> bool {
    exists|k: int| i <= k < ops.len() && (#[trigger] ops[k]@ == short || ops[k]@ == long)
}

/// The arguments after swapping positions `t` and `t + 1`.
pub open spec fn swap_at(ops: Seq<String>, t: int) -> Seq<String> {
    ops.update(t, ops[t + 1]).update(t + 1, ops[t])
}

/// Where an argument at `m` goes when positions `t` and `t + 1` are swapped.
pub open spec fn swapped_index(m: int, t: int) -> int {
    if m == t {
        t + 1
    } else if m == t + 1 {
        t
    } else {
        m
    }
}

/// Swapping neighbours moves every argument to its swapped place, and back.
proof fn lemma_swap_moves(ops: Seq<String>, t: int)
    requires
        0 <= t,
        t + 1 < ops.len(),
    ensures
        swap_at(ops, t).len() == ops.len(),
        forall|m: int| 0 <= m < ops.len() ==> #[trigger] swap_at(ops, t)[swapped_index(m, t)] == ops[m],
        forall|m: int| 0 <= m < ops.len() ==> #[trigger] ops[swapped_index(m, t)] == swap_at(ops, t)[m],
        forall|m: int| 0 <= m < ops.len() ==> 0 <= #[trigger] swapped_index(m, t) < ops.len(),
{
}

/// Swapping neighbours keeps whether a spelling occurs.
proof fn lemma_swap_keeps_occurrence(ops: Seq<String>, t: int, short: Seq<char>, long: Seq<char>)
    requires
        0 <= t,
        t + 1 < ops.len(),
    ensures
        some_from(ops, 0, short, long) == some_from(swap_at(ops, t), 0, short, long),
{
    let ops2 = swap_at(ops, t);
    lemma_swap_moves(ops, t);
    if some_from(ops, 0, short, long) {
        let k = choose|k: int| 0 <= k < ops.len() && (#[trigger] ops[k]@ == short || ops[k]@ == long);
        assert(ops2[swapped_index(k, t)] == ops[k]);
    }
    if some_from(ops2, 0, short, long) {
        let k = choose|k: int| 0 <= k < ops2.len() && (#[trigger] ops2[k]@ == short || ops2[k]@ == long);
        assert(ops[swapped_index(k, t)] == ops2[k]);
    }
}

/// No argument is spelled as both flags, and every flag starts with `-`.
proof fn lemma_flag_spellings()
    ensures
        forall|a: Seq<char>| is_help_flag(a) ==> !is_version_flag(a) && is_dashed(a),
        forall|a: Seq<char>| is_version_flag(a) ==> is_dashed(a),
{
    reveal_strlit("-h");
    reveal_strlit("--help");
    reveal_strlit("-v");
    reveal_strlit("--version");
    let h1 = "-h"@;
    let h2 = "--help"@;
    let v1 = "-v"@;
    let v2 = "--version"@;
    assert(h1.len() == 2 && h1[0] == '-' && h1[1] == 'h');
    assert(h2.len() == 6 && h2[0] == '-' && h2[2] == 'h');
    assert(v1.len() == 2 && v1[0] == '-' && v1[1] == 'v');
    assert(v2.len() == 9 && v2[0] == '-' && v2[2] == 'v');
    assert(h1 != v1);
}

/// Without `-r` and unknown options, reading from position `i` sets each flag that occurs and
/// takes the remaining arguments that do not start with `-` as filters.
proof fn lemma_scan_without_options(ops: Seq<String>, i: nat, st: ScanState)
    requires
        i <= ops.len(),
        forall|k: int| i <= k < ops.len() ==> !is_regex_flag(#[trigger] ops[k]@) && !is_unknown_option(ops[k]@),
    ensures
        scan(ops, i, st) == Ok::<ScanState, CliError>(
            ScanState {
                help: st.help || some_from(ops, i as int, "-h"@, "--help"@),
                version: st.version || some_from(ops, i as int, "-v"@, "--version"@),
                filters: st.filters + bare_arguments(ops.skip(i as int)),
                regex: st.regex,
            },
        ),
    decreases ops.len() - i,
{
    lemma_flag_spellings();
    if i >= ops.len() {
        assert(ops.skip(i as int) =~= Seq::<String>::empty());
        assert(bare_arguments(ops.skip(i as int)) =~= Seq::<String>::empty());
        assert(st.filters + bare_arguments(ops.skip(i as int)) =~= st.filters);
    } else {
        let a = ops[i as int];
        let next = (i + 1) as nat;
        let st2 = if is_help_flag(a@) {
            ScanState { help: true, ..st }
        } else if is_version_flag(a@) {
            ScanState { version: true, ..st }
        } else {
            ScanState { filters: st.filters.push(a), ..st }
        };
        assert(scan(ops, i, st) == scan(ops, next, st2));
        lemma_scan_without_options(ops, next, st2);
        assert(ops.skip(i as int) =~= seq![a] + ops.skip(next as int));
        ops.skip(next as int).lemma_filter_prepend(a, is_bare());
        assert(st.filters + bare_arguments(ops.skip(i as int)) =~= st2.filters + bare_arguments(
            ops.skip(next as int),
        ));
        assert(some_from(ops, i as int, "-h"@, "--help"@) == (is_help_flag(a@) || some_from(
            ops,
            next as int,
            "-h"@,
            "--help"@,
        )));
        assert(some_from(ops, i as int, "-v"@, "--version"@) == (is_version_flag(a@) || some_from(
            ops,
            next as int,
            "-v"@,
            "--version"@,
        )));
    }
}

/// Without `-r`, reading fails when an unknown option comes at or after position `i`.
proof fn lemma_scan_fails_at_unknown(ops: Seq<String>, i: nat, st: ScanState)
    requires
        i <= ops.len(),
        forall|k: int| i <= k < ops.len() ==> !is_regex_flag(#[trigger] ops[k]@),
        exists|k: int| i <= k < ops.len() && is_unknown_option(#[trigger] ops[k]@),
    ensures
        scan(ops, i, st) is Err,
    decreases ops.len() - i,
{
    let a = ops[i as int];
    if !is_unknown_option(a@) {
        let next = (i + 1) as nat;
        let st2 = if is_help_flag(a@) {
            ScanState { help: true, ..st }
        } else if is_version_flag(a@) {
            ScanState { version: true, ..st }
        } else {
            ScanState { filters: st.filters.push(a), ..st }
        };
        assert(scan(ops, i, st) == scan(ops, next, st2));
        let k = choose|k: int| i <= k < ops.len() && is_unknown_option(#[trigger] ops[k]@);
        assert(k != i);
        lemma_scan_fails_at_unknown(ops, next, st2);
    }
}

/// Swapping neighbours keeps the number of arguments that do not start with `-`, and keeps
/// those arguments themselves when there are fewer than two.
proof fn lemma_swap_keeps_bare(ops: Seq<String>, t: int)
    requires
        0 <= t,
        t + 1 < ops.len(),
    ensures
        bare_arguments(swap_at(ops, t)).len() == bare_arguments(ops).len(),
        bare_arguments(ops).len() < 2 ==> bare_arguments(swap_at(ops, t)) == bare_arguments(ops),
{
    let bare = is_bare();
    let x = ops[t];
    let y = ops[t + 1];
    let pre = ops.take(t);
    let post = ops.skip(t + 2);
    assert(ops =~= pre + seq![x, y] + post);
    assert(swap_at(ops, t) =~= pre + seq![y, x] + post);
    Seq::filter_distributes_over_add(pre + seq![x, y], post, bare);
    Seq::filter_distributes_over_add(pre, seq![x, y], bare);
    Seq::filter_distributes_over_add(pre + seq![y, x], post, bare);
    Seq::filter_distributes_over_add(pre, seq![y, x], bare);
    seq![y].lemma_filter_prepend(x, bare);
    seq![x].lemma_filter_prepend(y, bare);
    Seq::<String>::empty().lemma_filter_prepend(x, bare);
    Seq::<String>::empty().lemma_filter_prepend(y, bare);
    assert(seq![x] + Seq::<String>::empty() =~= seq![x]);
    assert(seq![y] + Seq::<String>::empty() =~= seq![y]);
    assert(seq![x] + seq![y] =~= seq![x, y]);
    assert(seq![y] + seq![x] =~= seq![y, x]);
    assert(Seq::<String>::empty().filter(bare) =~= Seq::<String>::empty());
    if !(bare(x) && bare(y)) {
        assert(seq![x, y].filter(bare) =~= seq![y, x].filter(bare));
    }
}

/// Without `-r`, swapping neighbours keeps an unknown option there, and so the failure.
proof fn lemma_swap_with_unknown(ops: Seq<String>, t: int)
    requires
        0 <= t,
        t + 1 < ops.len(),
        forall|m: int| 0 <= m < ops.len() ==> !is_regex_flag(#[trigger] ops[m]@),
        exists|k: int| 0 <= k < ops.len() && is_unknown_option(#[trigger] ops[k]@),
    ensures
        scan(ops, 0, scan_start()) is Err,
        scan(swap_at(ops, t), 0, scan_start()) is Err,
{
    let ops2 = swap_at(ops, t);
    lemma_swap_moves(ops, t);
    let k = choose|k: int| 0 <= k < ops.len() && is_unknown_option(#[trigger] ops[k]@);
    assert(ops2[swapped_index(k, t)] == ops[k]);
    assert forall|m: int| 0 <= m < ops2.len() implies !is_regex_flag(#[trigger] ops2[m]@) by {
        assert(ops[swapped_index(m, t)] == ops2[m]);
    }
    lemma_scan_fails_at_unknown(ops, 0, scan_start());
    lemma_scan_fails_at_unknown(ops2, 0, scan_start());
}

/// Without `-r` and unknown options, swapping neighbours keeps the command decided.
proof fn lemma_swap_without_unknown(ops: Seq<String>, t: int)
    requires
        0 <= t,
        t + 1 < ops.len(),
        forall|m: int| 0 <= m < ops.len() ==> !is_regex_flag(#[trigger] ops[m]@) && !is_unknown_option(ops[m]@),
    ensures
        scan(ops, 0, scan_start()) is Ok,
        scan(swap_at(ops, t), 0, scan_start()) is Ok,
        decide(scan(ops, 0, scan_start())->Ok_0) == decide(scan(swap_at(ops, t), 0, scan_start())->Ok_0),
{
    let ops2 = swap_at(ops, t);
    lemma_swap_moves(ops, t);
    assert forall|m: int| 0 <= m < ops2.len() implies !is_regex_flag(#[trigger] ops2[m]@)
        && !is_unknown_option(ops2[m]@) by {
        assert(ops[swapped_index(m, t)] == ops2[m]);
    }
    lemma_scan_without_options(ops, 0, scan_start());
    lemma_scan_without_options(ops2, 0, scan_start());
    assert(ops.skip(0) =~= ops);
    assert(ops2.skip(0) =~= ops2);
    assert(scan_start().filters + bare_arguments(ops) =~= bare_arguments(ops));
    assert(scan_start().filters + bare_arguments(ops2) =~= bare_arguments(ops2));
    lemma_swap_keeps_bare(ops, t);
    lemma_swap_keeps_occurrence(ops, t, "-h"@, "--help"@);
    lemma_swap_keeps_occurrence(ops, t, "-v"@, "--version"@);
}

/// When no argument is `-r`, swapping two neighbouring arguments never changes whether the
/// command line is accepted, nor the command it gives: a help or version flag counts
/// wherever it stands, an unknown option is refused wherever it stands, and a single filter
/// is the same filter. Any reordering is a series of such swaps.
pub proof fn lemma_argument_order_is_ignored(args: Seq<String>, j: int)
    requires
        1 <= j,
        j + 1 < args.len(),
        forall|k: int| 0 < k < args.len() ==> !is_regex_flag(#[trigger] args[k]@),
    ensures
        parse_outcome(args) is Ok <==> parse_outcome(args.update(j, args[j + 1]).update(j + 1, args[j])) is Ok,
        parse_outcome(args) is Ok ==> parse_outcome(args) == parse_outcome(
            args.update(j, args[j + 1]).update(j + 1, args[j]),
        ),
{
    let swapped = args.update(j, args[j + 1]).update(j + 1, args[j]);
    let ops = operands(args);
    let t = j - 1;
    assert(operands(swapped) =~= swap_at(ops, t));
    assert forall|m: int| 0 <= m < ops.len() implies !is_regex_flag(#[trigger] ops[m]@) by {
        assert(ops[m] == args[m + 1]);
    }
    if exists|k: int| 0 <= k < ops.len() && is_unknown_option(#[trigger] ops[k]@) {
        lemma_swap_with_unknown(ops, t);
    } else {
        lemma_swap_without_unknown(ops, t);
    }
}

} // verus!
