//! The command line: a search query with `--top` and `--exact`, or one of
//! the subcommands `ingest`, `benchmark` and `evaluate`.
//!
//! The grammar follows the conventions of the program's argument parser:
//! the first argument is the program's name; an option's value follows it
//! as the next argument or after `=`; `--` makes every later argument a
//! positional one; a subcommand's name, wherever it stands, starts the
//! subcommand and hands it the rest; an option may be given once.
use vstd::prelude::*;
use crate::text::text_eq;
use vstd::string::StrSliceExecFns;

verus! {

/// A subcommand and its arguments.
#[derive(Debug)]
pub enum Commands {
    /// Index the directory at `path` (the current one when absent).
    Ingest { path: Option<String> },
    /// Compare graph search with exact search over the queries of a file.
    Benchmark { queries: String, top: usize, runs: usize },
    /// Score exact search against judged queries.
    Evaluate { judgements: String, top: usize },
}

/// The parsed command line.
#[derive(Debug)]
pub struct Cli {
    pub keywords: Option<String>,
    pub top: usize,
    pub exact: bool,
    pub commands: Option<Commands>,
}

/// A subcommand as text.
pub enum CommandsModel {
    Ingest { path: Option<Seq<char>> },
    Benchmark { queries: Seq<char>, top: usize, runs: usize },
    Evaluate { judgements: Seq<char>, top: usize },
}

/// A command line as text.
pub struct CliModel {
    pub keywords: Option<Seq<char>>,
    pub top: usize,
    pub exact: bool,
    pub commands: Option<CommandsModel>,
}

/// The text of an optional string.
pub open spec fn opt_view(o: Option<String>) -> Option<Seq<char>> {
    match o {
        Some(s) => Some(s@),
        None => None,
    }
}

impl View for Commands {
    type V = CommandsModel;

    open spec fn view(&self) -> CommandsModel {
        match self {
            Commands::Ingest { path } => CommandsModel::Ingest { path: opt_view(*path) },
            Commands::Benchmark { queries, top, runs } => CommandsModel::Benchmark {
                queries: queries@,
                top: *top,
                runs: *runs,
            },
            Commands::Evaluate { judgements, top } => CommandsModel::Evaluate {
                judgements: judgements@,
                top: *top,
            },
        }
    }
}

impl View for Cli {
    type V = CliModel;

    open spec fn view(&self) -> CliModel {
        CliModel {
            keywords: opt_view(self.keywords),
            top: self.top,
            exact: self.exact,
            commands: match self.commands {
                Some(c) => Some(c@),
                None => None,
            },
        }
    }
}

/// Why a command line was refused.
#[derive(Debug, Clone, Copy, PartialEq, Eq)]
pub enum CliErrorKind {
    /// Nothing was given after the program's name.
    NoArguments,
    /// Help was asked for.
    Help,
    /// An option that the command does not have.
    UnknownArgument,
    /// A positional argument where none is left to fill.
    UnexpectedArgument,
    /// An option that needs a value came without one.
    MissingValue,
    /// A value that the option cannot take.
    InvalidValue,
    /// An option given twice.
    DuplicateArgument,
    /// A required option is missing.
    MissingRequired,
}

/// A refused command line: the reason and the argument concerned (the
/// token as written, or the option's long name with its dashes).
#[derive(Debug)]
pub struct CliError {
    pub kind: CliErrorKind,
    pub argument: String,
}

/// A refusal as text.
pub type CliErrorModel = (CliErrorKind, Seq<char>);

impl View for CliError {
    type V = CliErrorModel;

    open spec fn view(&self) -> CliErrorModel {
        (self.kind, self.argument@)
    }
}

/// An option of a command: its name with its two dashes, whether it takes
/// a value, whether that value is a number, and whether it is a path (which
/// cannot be empty).
pub struct OptSpec {
    pub name: Seq<char>,
    pub takes_value: bool,
    pub numeric: bool,
    pub path: bool,
}

/// `t` begins with `p`.
pub open spec fn has_prefix(t: Seq<char>, p: Seq<char>) -> bool {
    t.len() >= p.len() && t.take(p.len() as int) == p
}

/// The value of a string of decimal digits.
pub open spec fn digits_value(s: Seq<char>) -> int
    decreases s.len(),
{
    if s.len() == 0 {
        0
    } else {
        digits_value(s.drop_last()) * 10 + (s.last() as int - '0' as int)
    }
}

/// Every character is a decimal digit.
pub open spec fn all_digits(s: Seq<char>) -> bool {
    forall|i: int| 0 <= i < s.len() ==> '0' <= #[trigger] s[i] <= '9'
}

/// The digits of a number as written: the text without a leading `+`.
pub open spec fn num_digits(v: Seq<char>) -> Seq<char> {
    if v.len() > 0 && v[0] == '+' {
        v.skip(1)
    } else {
        v
    }
}

/// A number as written: an optional `+`, then one or more decimal digits,
/// of a value that fits in a `usize`.
pub open spec fn parse_num(v: Seq<char>) -> Option<usize> {
    let d = num_digits(v);
    if d.len() > 0 && all_digits(d) && digits_value(d) <= usize::MAX {
        Some(digits_value(d) as usize)
    } else {
        None
    }
}

/// An argument that looks like an option: it begins with `-` and is more
/// than that dash.
pub open spec fn looks_like_option(t: Seq<char>) -> bool {
    t.len() > 1 && t[0] == '-'
}

/// A value that option `o` accepts.
pub open spec fn value_ok(o: OptSpec, v: Seq<char>) -> bool {
    &&& o.numeric ==> parse_num(v) is Some
    &&& o.path ==> v.len() > 0
}

/// What the scan has gathered: the value of each option (a flag that was
/// given holds the empty text), the positional argument, and whether `--`
/// was seen.
pub struct ScanState {
    pub values: Seq<Option<Seq<char>>>,
    pub positional: Option<Seq<char>>,
    pub escaped: bool,
}

/// A state with no option, no positional argument and no `--`.
pub open spec fn scan_start(n: nat) -> ScanState {
    ScanState { values: Seq::new(n, |i: int| None), positional: None, escaped: false }
}

/// The index of the first option whose name `t` gives, alone or before
/// `=`, from index `k` on.
pub open spec fn find_opt(opts: Seq<OptSpec>, t: Seq<char>, k: int) -> Option<int>
    decreases opts.len() - k,
{
    if k < 0 || k >= opts.len() {
        None
    } else if t == opts[k].name || has_prefix(t, opts[k].name.push('=')) {
        Some(k)
    } else {
        find_opt(opts, t, k + 1)
    }
}

/// The subcommand names: `ingest`, `benchmark`, `evaluate` and `help`.
pub open spec fn subcommand_names() -> Seq<Seq<char>> {
    seq![
        seq!['i', 'n', 'g', 'e', 's', 't'],
        seq!['b', 'e', 'n', 'c', 'h', 'm', 'a', 'r', 'k'],
        seq!['e', 'v', 'a', 'l', 'u', 'a', 't', 'e'],
        seq!['h', 'e', 'l', 'p'],
    ]
}

/// The index of the subcommand named `t`.
pub open spec fn find_subcommand(t: Seq<char>) -> Option<int> {
    if t == subcommand_names()[0] {
        Some(0)
    } else if t == subcommand_names()[1] {
        Some(1)
    } else if t == subcommand_names()[2] {
        Some(2)
    } else if t == subcommand_names()[3] {
        Some(3)
    } else {
        None
    }
}

/// The outcome of a scan: the state at the end of the arguments, or at a
/// subcommand's name with that subcommand's index and the position after
/// its name.
pub type ScanOutcome = Result<(ScanState, Option<(int, int)>), CliErrorModel>;

/// Scans the arguments from position `i` with the options `opts`, at most
/// `max_pos` positional arguments (a path, which cannot be empty, when
/// `pos_path`), and subcommands when `allow_sub`.
pub open spec fn scan(
    args: Seq<Seq<char>>,
    i: int,
    opts: Seq<OptSpec>,
    max_pos: nat,
    pos_path: bool,
    allow_sub: bool,
    st: ScanState,
) -> ScanOutcome
    decreases args.len() - i, 1nat,
{
    if i < 0 || i >= args.len() {
        Ok((st, None))
    } else {
        let t = args[i];
        if st.escaped {
            scan_positional(args, i, opts, max_pos, pos_path, allow_sub, st)
        } else if allow_sub && find_subcommand(t) is Some {
            Ok((st, Some((find_subcommand(t).unwrap(), i + 1))))
        } else if t == seq!['-', '-'] {
            scan(args, i + 1, opts, max_pos, pos_path, allow_sub, ScanState { escaped: true, ..st })
        } else if t == seq!['-', 'h'] || t == seq!['-', '-', 'h', 'e', 'l', 'p'] {
            Err((CliErrorKind::Help, t))
        } else if has_prefix(t, seq!['-', '-']) && find_opt(opts, t, 0) is Some {
            let k = find_opt(opts, t, 0).unwrap();
            let o = opts[k];
            let name = o.name;
            let inline = t.len() > name.len();
            if st.values[k] is Some {
                Err((CliErrorKind::DuplicateArgument, name))
            } else if !o.takes_value {
                if inline {
                    Err((CliErrorKind::InvalidValue, name))
                } else {
                    scan(args, i + 1, opts, max_pos, pos_path, allow_sub,
                        ScanState { values: st.values.update(k, Some(Seq::empty())), ..st })
                }
            } else if inline {
                let v = t.skip(name.len() + 1int);
                if value_ok(o, v) {
                    scan(args, i + 1, opts, max_pos, pos_path, allow_sub,
                        ScanState { values: st.values.update(k, Some(v)), ..st })
                } else {
                    Err((CliErrorKind::InvalidValue, name))
                }
            } else if i + 1 < args.len() && !looks_like_option(args[i + 1]) {
                let v = args[i + 1];
                if value_ok(o, v) {
                    scan(args, i + 2, opts, max_pos, pos_path, allow_sub,
                        ScanState { values: st.values.update(k, Some(v)), ..st })
                } else {
                    Err((CliErrorKind::InvalidValue, name))
                }
            } else {
                Err((CliErrorKind::MissingValue, name))
            }
        } else if looks_like_option(t) {
            Err((CliErrorKind::UnknownArgument, t))
        } else {
            scan_positional(args, i, opts, max_pos, pos_path, allow_sub, st)
        }
    }
}

/// Takes `args[i]` as the positional argument and scans on.
pub open spec fn scan_positional(
    args: Seq<Seq<char>>,
    i: int,
    opts: Seq<OptSpec>,
    max_pos: nat,
    pos_path: bool,
    allow_sub: bool,
    st: ScanState,
) -> ScanOutcome
    decreases args.len() - i, 0nat,
{
    if i < 0 || i >= args.len() {
        Ok((st, None))
    } else if st.positional is None && max_pos >= 1 {
        if pos_path && args[i].len() == 0 {
            Err((CliErrorKind::InvalidValue, args[i]))
        } else {
            scan(args, i + 1, opts, max_pos, pos_path, allow_sub, ScanState { positional: Some(args[i]), ..st })
        }
    } else {
        Err((CliErrorKind::UnexpectedArgument, args[i]))
    }
}

/// The options of the search: `--exact` and `--top`.
pub open spec fn top_opts() -> Seq<OptSpec> {
    seq![
        OptSpec { name: seq!['-', '-', 'e', 'x', 'a', 'c', 't'], takes_value: false, numeric: false, path: false },
        OptSpec { name: seq!['-', '-', 't', 'o', 'p'], takes_value: true, numeric: true, path: false },
    ]
}

/// The options of `benchmark`: `--queries`, `--top` and `--runs`.
pub open spec fn benchmark_opts() -> Seq<OptSpec> {
    seq![
        OptSpec { name: seq!['-', '-', 'q', 'u', 'e', 'r', 'i', 'e', 's'], takes_value: true, numeric: false, path: true },
        OptSpec { name: seq!['-', '-', 't', 'o', 'p'], takes_value: true, numeric: true, path: false },
        OptSpec { name: seq!['-', '-', 'r', 'u', 'n', 's'], takes_value: true, numeric: true, path: false },
    ]
}

/// The options of `evaluate`: `--judgements` and `--top`.
pub open spec fn evaluate_opts() -> Seq<OptSpec> {
    seq![
        OptSpec {
            name: seq!['-', '-', 'j', 'u', 'd', 'g', 'e', 'm', 'e', 'n', 't', 's'],
            takes_value: true,
            numeric: false,
            path: true,
        },
        OptSpec { name: seq!['-', '-', 't', 'o', 'p'], takes_value: true, numeric: true, path: false },
    ]
}

/// The number an option was given, or `default` when it was not.
pub open spec fn num_or(v: Option<Seq<char>>, default: usize) -> usize {
    match v {
        Some(t) => match parse_num(t) {
            Some(n) => n,
            None => default,
        },
        None => default,
    }
}

/// The subcommand with index `sub`, from the arguments after its name at
/// position `j`.
pub open spec fn parse_subcommand(args: Seq<Seq<char>>, sub: int, j: int) -> Result<CommandsModel, CliErrorModel> {
    if sub == 0 {
        match scan(args, j, Seq::empty(), 1, true, false, scan_start(0)) {
            Err(e) => Err(e),
            Ok((st, _)) => Ok(CommandsModel::Ingest { path: st.positional }),
        }
    } else if sub == 1 {
        match scan(args, j, benchmark_opts(), 0, false, false, scan_start(3)) {
            Err(e) => Err(e),
            Ok((st, _)) => match st.values[0] {
                None => Err((CliErrorKind::MissingRequired, benchmark_opts()[0].name)),
                Some(q) => Ok(CommandsModel::Benchmark {
                    queries: q,
                    top: num_or(st.values[1], 10),
                    runs: num_or(st.values[2], 50),
                }),
            },
        }
    } else if sub == 2 {
        match scan(args, j, evaluate_opts(), 0, false, false, scan_start(2)) {
            Err(e) => Err(e),
            Ok((st, _)) => match st.values[0] {
                None => Err((CliErrorKind::MissingRequired, evaluate_opts()[0].name)),
                Some(q) => Ok(CommandsModel::Evaluate { judgements: q, top: num_or(st.values[1], 10) }),
            },
        }
    } else {
        Err((CliErrorKind::Help, subcommand_names()[3]))
    }
}

/// The command line that `args` spells, the first argument being the
/// program's name: the query, `--top` (3 when absent), `--exact`, and the
/// subcommand when one is named.
pub open spec fn parse_cli(args: Seq<Seq<char>>) -> Result<CliModel, CliErrorModel> {
    if args.len() <= 1 {
        Err((CliErrorKind::NoArguments, Seq::empty()))
    } else {
        match scan(args, 1, top_opts(), 1, false, true, scan_start(2)) {
            Err(e) => Err(e),
            Ok((st, sub)) => {
                let head = CliModel {
                    keywords: st.positional,
                    top: num_or(st.values[1], 3),
                    exact: st.values[0] is Some,
                    commands: None,
                };
                match sub {
                    None => Ok(head),
                    Some((k, j)) => match parse_subcommand(args, k, j) {
                        Err(e) => Err(e),
                        Ok(c) => Ok(CliModel { commands: Some(c), ..head }),
                    },
                }
            },
        }
    }
}

/// The texts of a list of strings.
pub open spec fn texts(v: Seq<String>) -> Seq<Seq<char>> {
    v.map_values(|s: String| s@)
}

/// The number of characters of `t`.
fn char_len(t: &str) -> (r: usize)
    ensures
        r == t@.len(),
{
    t.unicode_len()
}

/// Whether `t` begins with `p`.
fn starts_with_text(t: &str, p: &str) -> (r: bool)
    ensures
        r == has_prefix(t@, p@),
{
    let tl = char_len(t);
    let pl = char_len(p);
    if tl < pl {
        return false;
    }
    let mut i: usize = 0;
    while i < pl
        invariant
            i <= pl,
            pl == p@.len(),
            tl == t@.len(),
            tl >= pl,
            forall|k: int| 0 <= k < i ==> t@[k] == p@[k],
        decreases pl - i,
    {
        if t.get_char(i) != p.get_char(i) {
            assert(t@.take(pl as int)[i as int] != p@[i as int]);
            return false;
        }
        i += 1;
    }
    assert(t@.take(pl as int) =~= p@);
    true
}

/// Every digit prefix of a string of digits has a value no larger than the
/// whole, and values are never negative.
proof fn lemma_digits_prefix(d: Seq<char>, k: int)
    requires
        all_digits(d),
        0 <= k <= d.len(),
    ensures
        0 <= digits_value(d.take(k)) <= digits_value(d),
    decreases d.len() - k,
{
    if k < d.len() {
        lemma_digits_prefix(d, k + 1);
        assert(d.take(k + 1).drop_last() =~= d.take(k));
        assert(d.take(k + 1).last() == d[k]);
        assert('0' <= d[k] <= '9');
    } else {
        assert(d.take(k) =~= d);
        lemma_digits_nonneg(d);
    }
}

/// The value of a string of digits is not negative.
proof fn lemma_digits_nonneg(d: Seq<char>)
    requires
        all_digits(d),
    ensures
        digits_value(d) >= 0,
    decreases d.len(),
{
    if d.len() > 0 {
        assert(all_digits(d.drop_last()));
        lemma_digits_nonneg(d.drop_last());
        assert('0' <= d[d.len() - 1] <= '9');
    }
}

/// The number `v` spells, as `parse_num` says.
pub fn parse_number(v: &str) -> (r: Option<usize>)
    ensures
        r == parse_num(v@),
{
    let n = char_len(v);
    let mut i: usize = 0;
    if n > 0 && v.get_char(0) == '+' {
        i = 1;
    }
    let ghost d = num_digits(v@);
    assert(d =~= v@.skip(i as int));
    if i == n {
        assert(d.len() == 0);
        assert(parse_num(v@) is None);
        return None;
    }
    let start = i;
    let mut acc: usize = 0;
    while i < n
        invariant
            start <= i <= n,
            n == v@.len(),
            d == v@.skip(start as int),
            start < n,
            d == num_digits(v@),
            all_digits(d.take(i - start)),
            acc == digits_value(d.take(i - start)),
        decreases n - i,
    {
        let c = v.get_char(i);
        assert(d[i - start] == c);
        if c < '0' || c > '9' {
            assert(!all_digits(d)) by {
                assert(!('0' <= d[i - start] <= '9'));
            }
            assert(!(d.len() > 0 && all_digits(d) && digits_value(d) <= usize::MAX));
            assert(parse_num(v@) is None);
            return None;
        }
        let digit = (c as u32 - '0' as u32) as usize;
        assert(digit == c as int - '0' as int);
        assert(d.take(i - start + 1).drop_last() =~= d.take(i - start));
        assert(d.take(i - start + 1).last() == c);
        assert(all_digits(d.take(i - start + 1))) by {
            assert forall|k: int| 0 <= k < i - start + 1 implies '0' <= #[trigger] d.take(i - start + 1)[k] <= '9' by {
                if k < i - start {
                    assert(d.take(i - start + 1)[k] == d.take(i - start)[k]);
                }
            }
        }
        if (acc as u128) * 10 + (digit as u128) > usize::MAX as u128 {
            assert(digits_value(d.take(i - start + 1)) == acc * 10 + digit);
            proof {
                if all_digits(d) {
                    lemma_digits_prefix(d, i - start + 1);
                }
            }
            assert(all_digits(d) ==> digits_value(d) > usize::MAX);
            assert(!(d.len() > 0 && all_digits(d) && digits_value(d) <= usize::MAX));
            assert(parse_num(v@) is None);
            return None;
        }
        acc = acc * 10 + digit;
        i += 1;
    }
    assert(d.take(n - start) =~= d);
    Some(acc)
}

/// An option as the program declares it.
pub struct OptSpecExec {
    pub name: &'static str,
    pub takes_value: bool,
    pub numeric: bool,
    pub path: bool,
}

impl View for OptSpecExec {
    type V = OptSpec;

    open spec fn view(&self) -> OptSpec {
        OptSpec { name: self.name@, takes_value: self.takes_value, numeric: self.numeric, path: self.path }
    }
}

/// The options of a list as the grammar sees them.
pub open spec fn opts_view(v: Seq<OptSpecExec>) -> Seq<OptSpec> {
    v.map_values(|o: OptSpecExec| o@)
}

fn top_options() -> (r: Vec<OptSpecExec>)
    ensures
        opts_view(r@) == top_opts(),
{
    let r = vec![
        OptSpecExec { name: "--exact", takes_value: false, numeric: false, path: false },
        OptSpecExec { name: "--top", takes_value: true, numeric: true, path: false },
    ];
    proof {
        reveal_strlit("--exact");
        reveal_strlit("--top");
        assert("--exact"@ =~= top_opts()[0].name);
        assert("--top"@ =~= top_opts()[1].name);
        assert(opts_view(r@) =~= top_opts());
    }
    r
}

fn benchmark_options() -> (r: Vec<OptSpecExec>)
    ensures
        opts_view(r@) == benchmark_opts(),
{
    let r = vec![
        OptSpecExec { name: "--queries", takes_value: true, numeric: false, path: true },
        OptSpecExec { name: "--top", takes_value: true, numeric: true, path: false },
        OptSpecExec { name: "--runs", takes_value: true, numeric: true, path: false },
    ];
    proof {
        reveal_strlit("--queries");
        reveal_strlit("--top");
        reveal_strlit("--runs");
        assert("--queries"@ =~= benchmark_opts()[0].name);
        assert("--top"@ =~= benchmark_opts()[1].name);
        assert("--runs"@ =~= benchmark_opts()[2].name);
        assert(opts_view(r@) =~= benchmark_opts());
    }
    r
}

fn evaluate_options() -> (r: Vec<OptSpecExec>)
    ensures
        opts_view(r@) == evaluate_opts(),
{
    let r = vec![
        OptSpecExec { name: "--judgements", takes_value: true, numeric: false, path: true },
        OptSpecExec { name: "--top", takes_value: true, numeric: true, path: false },
    ];
    proof {
        reveal_strlit("--judgements");
        reveal_strlit("--top");
        assert("--judgements"@ =~= evaluate_opts()[0].name);
        assert("--top"@ =~= evaluate_opts()[1].name);
        assert(opts_view(r@) =~= evaluate_opts());
    }
    r
}

/// The index of the subcommand named `t`.
fn subcommand_index(t: &str) -> (r: Option<usize>)
    ensures
        match find_subcommand(t@) {
            Some(k) => r matches Some(j) && j == k,
            None => r is None,
        },
{
    proof {
        reveal_strlit("ingest");
        reveal_strlit("benchmark");
        reveal_strlit("evaluate");
        reveal_strlit("help");
        assert("ingest"@ =~= subcommand_names()[0]);
        assert("benchmark"@ =~= subcommand_names()[1]);
        assert("evaluate"@ =~= subcommand_names()[2]);
        assert("help"@ =~= subcommand_names()[3]);
    }
    if text_eq(t, "ingest") {
        Some(0)
    } else if text_eq(t, "benchmark") {
        Some(1)
    } else if text_eq(t, "evaluate") {
        Some(2)
    } else if text_eq(t, "help") {
        Some(3)
    } else {
        None
    }
}

/// `t` names option `name` with a value after `=`.
proof fn lemma_prefix_eq(t: Seq<char>, name: Seq<char>)
    ensures
        has_prefix(t, name.push('=')) <==> (has_prefix(t, name) && t.len() > name.len() && t[name.len() as int] == '='),
{
    if has_prefix(t, name.push('=')) {
        assert(t.take(name.len() as int) =~= name.push('=').take(name.len() as int));
        assert(name.push('=').take(name.len() as int) =~= name);
        assert(t.take(name.len() + 1int)[name.len() as int] == '=');
    }
    if has_prefix(t, name) && t.len() > name.len() && t[name.len() as int] == '=' {
        assert(t.take(name.len() + 1int) =~= name.push('='));
    }
}

/// The index of the first option that `t` names, as `find_opt` says.
fn option_index(opts: &Vec<OptSpecExec>, t: &str) -> (r: Option<usize>)
    ensures
        match find_opt(opts_view(opts@), t@, 0) {
            Some(k) => r matches Some(j) && j == k,
            None => r is None,
        },
        r matches Some(k) ==> k < opts.len(),
{
    let ghost ov = opts_view(opts@);
    let tl = char_len(t);
    let mut k: usize = 0;
    while k < opts.len()
        invariant
            k <= opts.len(),
            ov == opts_view(opts@),
            tl == t@.len(),
            find_opt(ov, t@, 0) == find_opt(ov, t@, k as int),
        decreases opts.len() - k,
    {
        let name = opts[k].name;
        assert(ov[k as int].name == name@);
        let nl = char_len(name);
        proof {
            lemma_prefix_eq(t@, name@);
        }
        if text_eq(t, name) || (starts_with_text(t, name) && tl > nl && t.get_char(nl) == '=') {
            return Some(k);
        }
        k += 1;
    }
    None
}

/// The text of an optional string's value, as the grammar records it.
pub open spec fn values_view(v: Seq<Option<String>>) -> Seq<Option<Seq<char>>> {
    v.map_values(|o: Option<String>| opt_view(o))
}

/// The state that the scan's variables stand for.
pub open spec fn state_of(values: Seq<Option<String>>, positional: Option<String>, escaped: bool) -> ScanState {
    ScanState { values: values_view(values), positional: opt_view(positional), escaped }
}

/// What a scan gathered, and the subcommand it stopped at.
pub struct Scanned {
    pub values: Vec<Option<String>>,
    pub positional: Option<String>,
    pub escaped: bool,
    pub subcommand: Option<(usize, usize)>,
}

/// A refusal for the argument `argument`.
fn refuse(kind: CliErrorKind, argument: &str) -> (r: CliError)
    ensures
        r@ == (kind, argument@),
{
    CliError { kind, argument: argument.to_owned() }
}

/// Scans `args` from position `start`, as `scan` says.
fn scan_args(
    args: &Vec<String>,
    start: usize,
    opts: &Vec<OptSpecExec>,
    max_pos: usize,
    pos_path: bool,
    allow_sub: bool,
) -> (r: Result<Scanned, CliError>)
    ensures
        match scan(texts(args@), start as int, opts_view(opts@), max_pos as nat, pos_path, allow_sub, scan_start(opts.len() as nat)) {
            Ok((st, sub)) => r matches Ok(s) && state_of(s.values@, s.positional, s.escaped) == st && match sub {
                Some((a, b)) => s.subcommand matches Some((x, y)) && x == a && y == b,
                None => s.subcommand is None,
            },
            Err(e) => r matches Err(err) && err@ == e,
        },
        r matches Ok(s) ==> s.values.len() == opts.len(),
{
    let ghost av = texts(args@);
    let ghost ov = opts_view(opts@);
    let ghost target = scan(av, start as int, ov, max_pos as nat, pos_path, allow_sub, scan_start(opts.len() as nat));
    let mut values: Vec<Option<String>> = Vec::new();
    while values.len() < opts.len()
        invariant
            values.len() <= opts.len(),
            forall|a: int| 0 <= a < values.len() ==> values@[a] is None,
        decreases opts.len() - values.len(),
    {
        values.push(None);
    }
    assert(values_view(values@) =~= scan_start(opts.len() as nat).values);
    let mut positional: Option<String> = None;
    let mut escaped = false;
    let mut i = start;
    while i < args.len()
        invariant
            av == texts(args@),
            ov == opts_view(opts@),
            values.len() == opts.len(),
            i >= start,
            target == scan(av, start as int, ov, max_pos as nat, pos_path, allow_sub, scan_start(opts.len() as nat)),
            scan(av, i as int, ov, max_pos as nat, pos_path, allow_sub, state_of(values@, positional, escaped)) == target,
        decreases args.len() - i,
    {
        let t = args[i].as_str();
        assert(av[i as int] == t@);
        let ghost st = state_of(values@, positional, escaped);
        if !escaped {
            if allow_sub {
                match subcommand_index(t) {
                    Some(k) => {
                        return Ok(Scanned { values, positional, escaped, subcommand: Some((k, i + 1)) });
                    },
                    None => {},
                }
            }
            proof {
                reveal_strlit("--");
                reveal_strlit("-h");
                reveal_strlit("--help");
                assert("--"@ =~= seq!['-', '-']);
                assert("-h"@ =~= seq!['-', 'h']);
                assert("--help"@ =~= seq!['-', '-', 'h', 'e', 'l', 'p']);
            }
            if text_eq(t, "--") {
                escaped = true;
                assert(state_of(values@, positional, escaped) == ScanState { escaped: true, ..st });
                i += 1;
                continue;
            }
            if text_eq(t, "-h") || text_eq(t, "--help") {
                return Err(refuse(CliErrorKind::Help, t));
            }
            let opt = if starts_with_text(t, "--") { option_index(opts, t) } else { None };
            match opt {
                Some(k) => {
                    let o = &opts[k];
                    assert(ov[k as int] == o@);
                    let nl = char_len(o.name);
                    let tl = char_len(t);
                    let inline = tl > nl;
                    if values[k].is_some() {
                        return Err(refuse(CliErrorKind::DuplicateArgument, o.name));
                    }
                    if !o.takes_value {
                        if inline {
                            return Err(refuse(CliErrorKind::InvalidValue, o.name));
                        }
                        let ghost before = values@;
                        values.set(k, Some(String::new()));
                        assert(values_view(values@) =~= values_view(before).update(k as int, Some(Seq::<char>::empty())));
                        i += 1;
                        continue;
                    }
                    let mut step: usize = 1;
                    let v: String = if inline {
                        t.substring_char(nl + 1, tl).to_owned()
                    } else if i + 1 < args.len() && !(char_len(args[i + 1].as_str()) > 1 && args[i + 1].as_str().get_char(0) == '-') {
                        assert(av[i + 1] == args@[i + 1]@);
                        step = 2;
                        args[i + 1].clone()
                    } else {
                        return Err(refuse(CliErrorKind::MissingValue, o.name));
                    };
                    proof {
                        if inline {
                            assert(v@ =~= t@.skip(o.name@.len() + 1int));
                        }
                    }
                    let ok_num = if o.numeric { parse_number(v.as_str()).is_some() } else { true };
                    let ok_path = if o.path { char_len(v.as_str()) > 0 } else { true };
                    if !(ok_num && ok_path) {
                        return Err(refuse(CliErrorKind::InvalidValue, o.name));
                    }
                    let ghost before = values@;
                    let ghost vv = v@;
                    values.set(k, Some(v));
                    assert(values_view(values@) =~= values_view(before).update(k as int, Some(vv)));
                    i += step;
                    continue;
                },
                None => {},
            }
            if char_len(t) > 1 && t.get_char(0) == '-' {
                return Err(refuse(CliErrorKind::UnknownArgument, t));
            }
        }
        assert(scan(av, i as int, ov, max_pos as nat, pos_path, allow_sub, st)
            == scan_positional(av, i as int, ov, max_pos as nat, pos_path, allow_sub, st));
        if positional.is_none() && max_pos >= 1 {
            if pos_path && char_len(t) == 0 {
                assert(scan_positional(av, i as int, ov, max_pos as nat, pos_path, allow_sub, st)
                    == Err::<(ScanState, Option<(int, int)>), CliErrorModel>((CliErrorKind::InvalidValue, t@)));
                return Err(refuse(CliErrorKind::InvalidValue, t));
            }
            let owned = t.to_owned();
            let ghost tv = owned@;
            positional = Some(owned);
            assert(state_of(values@, positional, escaped) == ScanState { positional: Some(tv), ..st });
            i += 1;
        } else {
            assert(scan_positional(av, i as int, ov, max_pos as nat, pos_path, allow_sub, st)
                == Err::<(ScanState, Option<(int, int)>), CliErrorModel>((CliErrorKind::UnexpectedArgument, t@)));
            return Err(refuse(CliErrorKind::UnexpectedArgument, t));
        }
    }
    Ok(Scanned { values, positional, escaped, subcommand: None })
}

/// The number option `v` holds, or `default`, as `num_or` says.
fn number_or(v: &Option<String>, default: usize) -> (r: usize)
    ensures
        r == num_or(opt_view(*v), default),
{
    match v {
        Some(t) => match parse_number(t.as_str()) {
            Some(n) => n,
            None => default,
        },
        None => default,
    }
}

/// The last value of a scan, removed.
fn pop_value(values: &mut Vec<Option<String>>) -> (r: Option<String>)
    requires
        old(values).len() > 0,
    ensures
        final(values)@ == old(values)@.drop_last(),
        r == old(values)@.last(),
{
    values.pop().unwrap()
}

/// The texts of a list of string slices.
pub open spec fn strs_view(v: Seq<&str>) -> Seq<Seq<char>> {
    v.map_values(|s: &str| s@)
}

/// Owned copies of the arguments.
fn to_strings(args: &[&str]) -> (r: Vec<String>)
    ensures
        texts(r@) == strs_view(args@),
{
    let mut r: Vec<String> = Vec::new();
    let mut i: usize = 0;
    while i < args.len()
        invariant
            i <= args.len(),
            texts(r@) == strs_view(args@).take(i as int),
        decreases args.len() - i,
    {
        let ghost before = r@;
        let owned = args[i].to_owned();
        r.push(owned);
        assert(texts(r@) =~= texts(before).push(args@[i as int]@));
        i += 1;
        assert(strs_view(args@).take(i as int) =~= strs_view(args@).take(i - 1).push(args@[i - 1]@));
    }
    assert(strs_view(args@).take(args.len() as int) =~= strs_view(args@));
    r
}

/// The subcommand with index `sub`, from the arguments after its name, as
/// `parse_subcommand` says.
fn subcommand_from(args: &Vec<String>, sub: usize, j: usize) -> (r: Result<Commands, CliError>)
    ensures
        match parse_subcommand(texts(args@), sub as int, j as int) {
            Ok(c) => r matches Ok(x) && x@ == c,
            Err(e) => r matches Err(err) && err@ == e,
        },
{
    if sub == 0 {
        let none: Vec<OptSpecExec> = Vec::new();
        assert(opts_view(none@) =~= Seq::<OptSpec>::empty());
        match scan_args(args, j, &none, 1, true, false) {
            Err(e) => Err(e),
            Ok(s) => Ok(Commands::Ingest { path: s.positional }),
        }
    } else if sub == 1 {
        let opts = benchmark_options();
        match scan_args(args, j, &opts, 0, false, false) {
            Err(e) => Err(e),
            Ok(s) => {
                let mut values = s.values;
                let ghost vs = values@;
                assert(values_view(vs).len() == 3);
                let runs = pop_value(&mut values);
                let top = pop_value(&mut values);
                let queries = pop_value(&mut values);
                assert(runs == vs[2] && top == vs[1] && queries == vs[0]);
                assert(values_view(vs)[0] == opt_view(vs[0]));
                assert(values_view(vs)[1] == opt_view(vs[1]));
                assert(values_view(vs)[2] == opt_view(vs[2]));
                match queries {
                    None => Err(refuse(CliErrorKind::MissingRequired, opts[0].name)),
                    Some(q) => Ok(Commands::Benchmark {
                        queries: q,
                        top: number_or(&top, 10),
                        runs: number_or(&runs, 50),
                    }),
                }
            },
        }
    } else if sub == 2 {
        let opts = evaluate_options();
        match scan_args(args, j, &opts, 0, false, false) {
            Err(e) => Err(e),
            Ok(s) => {
                let mut values = s.values;
                let ghost vs = values@;
                assert(values_view(vs).len() == 2);
                let top = pop_value(&mut values);
                let judgements = pop_value(&mut values);
                assert(top == vs[1] && judgements == vs[0]);
                assert(values_view(vs)[0] == opt_view(vs[0]));
                assert(values_view(vs)[1] == opt_view(vs[1]));
                match judgements {
                    None => Err(refuse(CliErrorKind::MissingRequired, opts[0].name)),
                    Some(q) => Ok(Commands::Evaluate { judgements: q, top: number_or(&top, 10) }),
                }
            },
        }
    } else {
        proof {
            reveal_strlit("help");
            assert("help"@ =~= subcommand_names()[3]);
        }
        Err(refuse(CliErrorKind::Help, "help"))
    }
}

impl Cli {
    /// Parses a command line whose first argument is the program's name,
    /// as `parse_cli` says.
    pub fn try_parse_from(args: &[&str]) -> (r: Result<Cli, CliError>)
        ensures
            match parse_cli(strs_view(args@)) {
                Ok(m) => r matches Ok(c) && c@ == m,
                Err(e) => r matches Err(err) && err@ == e,
            },
    {
        let owned = to_strings(args);
        if owned.len() <= 1 {
            proof {
                reveal_strlit("");
            }
            return Err(refuse(CliErrorKind::NoArguments, ""));
        }
        let opts = top_options();
        match scan_args(&owned, 1, &opts, 1, false, true) {
            Err(e) => Err(e),
            Ok(s) => {
                let Scanned { mut values, positional, escaped: _, subcommand } = s;
                let ghost vs = values@;
                assert(values_view(vs).len() == 2);
                let top = pop_value(&mut values);
                let exact = pop_value(&mut values);
                assert(top == vs[1] && exact == vs[0]);
                assert(values_view(vs)[0] == opt_view(vs[0]));
                assert(values_view(vs)[1] == opt_view(vs[1]));
                let top = number_or(&top, 3);
                let exact = exact.is_some();
                match subcommand {
                    None => Ok(Cli { keywords: positional, top, exact, commands: None }),
                    Some((k, j)) => match subcommand_from(&owned, k, j) {
                        Err(e) => Err(e),
                        Ok(c) => Ok(Cli { keywords: positional, top, exact, commands: Some(c) }),
                    },
                }
            },
        }
    }
}

/// A query given alone is the search, with `--top` 3 and without
/// `--exact`; given after `--exact`, the same search is exact.
pub proof fn law_plain_query(program: Seq<char>, q: Seq<char>)
    requires
        !looks_like_option(q),
        find_subcommand(q) is None,
    ensures
        parse_cli(seq![program, q]) == Ok::<CliModel, CliErrorModel>(
            CliModel { keywords: Some(q), top: 3, exact: false, commands: None },
        ),
        parse_cli(seq![program, seq!['-', '-', 'e', 'x', 'a', 'c', 't'], q]) == Ok::<CliModel, CliErrorModel>(
            CliModel { keywords: Some(q), top: 3, exact: true, commands: None },
        ),
{
    let opts = top_opts();
    assert(q != seq!['-', '-']);
    assert(q != seq!['-', 'h']);
    assert(q != seq!['-', '-', 'h', 'e', 'l', 'p']);
    assert(!has_prefix(q, seq!['-', '-'])) by {
        if has_prefix(q, seq!['-', '-']) {
            assert(q.take(2)[0] == '-');
            assert(q.len() > 1 && q[0] == '-');
        }
    }
    let args = seq![program, q];
    let st0 = scan_start(2);
    let st1 = ScanState { positional: Some(q), ..st0 };
    assert(scan(args, 2, opts, 1, false, true, st1) == Ok::<(ScanState, Option<(int, int)>), CliErrorModel>((st1, None)));
    assert(scan_positional(args, 1, opts, 1, false, true, st0) == scan(args, 2, opts, 1, false, true, st1));
    assert(scan(args, 1, opts, 1, false, true, st0) == scan_positional(args, 1, opts, 1, false, true, st0));
    assert(st0.values[0] is None && st0.values[1] is None);

    let exact = seq!['-', '-', 'e', 'x', 'a', 'c', 't'];
    let args2 = seq![program, exact, q];
    assert(find_subcommand(exact) is None);
    assert(exact != seq!['-', '-']);
    assert(exact != seq!['-', 'h']);
    assert(exact != seq!['-', '-', 'h', 'e', 'l', 'p']);
    assert(has_prefix(exact, seq!['-', '-'])) by {
        assert(exact.take(2) =~= seq!['-', '-']);
    }
    assert(find_opt(opts, exact, 0) == Some(0int)) by {
        assert(opts[0].name == exact);
    }
    let st2 = ScanState { values: st0.values.update(0, Some(Seq::<char>::empty())), ..st0 };
    let st3 = ScanState { positional: Some(q), ..st2 };
    assert(scan(args2, 3, opts, 1, false, true, st3) == Ok::<(ScanState, Option<(int, int)>), CliErrorModel>((st3, None)));
    assert(scan_positional(args2, 2, opts, 1, false, true, st2) == scan(args2, 3, opts, 1, false, true, st3));
    assert(scan(args2, 2, opts, 1, false, true, st2) == scan_positional(args2, 2, opts, 1, false, true, st2));
    assert(exact.len() == opts[0].name.len());
    assert(scan(args2, 1, opts, 1, false, true, st0) == scan(args2, 2, opts, 1, false, true, st2));
    assert(st3.values[0] is Some && st3.values[1] is None);
}

/// A number as written never looks like an option.
proof fn lemma_number_is_not_an_option(n: Seq<char>)
    requires
        parse_num(n) is Some,
    ensures
        !looks_like_option(n),
{
    let d = num_digits(n);
    if n.len() > 0 && n[0] != '+' {
        assert(d == n);
        assert('0' <= d[0] <= '9');
    }
}

/// `evaluate` takes its own `--top`: after the subcommand's name, the
/// judgements file and `--top N` (in either order) give an evaluation of
/// that file with `N` results graded, and without `--top` with 10; the
/// search's own settings keep their defaults.
pub proof fn law_evaluate_takes_its_top(program: Seq<char>, judgements: Seq<char>, n: Seq<char>)
    requires
        judgements.len() > 0,
        !looks_like_option(judgements),
        parse_num(n) is Some,
    ensures
        ({
            let ev = seq!['e', 'v', 'a', 'l', 'u', 'a', 't', 'e'];
            let jo = seq!['-', '-', 'j', 'u', 'd', 'g', 'e', 'm', 'e', 'n', 't', 's'];
            let to = seq!['-', '-', 't', 'o', 'p'];
            &&& parse_cli(seq![program, ev, jo, judgements, to, n]) == Ok::<CliModel, CliErrorModel>(
                CliModel {
                    keywords: None,
                    top: 3,
                    exact: false,
                    commands: Some(CommandsModel::Evaluate { judgements, top: parse_num(n).unwrap() }),
                },
            )
            &&& parse_cli(seq![program, ev, to, n, jo, judgements]) == Ok::<CliModel, CliErrorModel>(
                CliModel {
                    keywords: None,
                    top: 3,
                    exact: false,
                    commands: Some(CommandsModel::Evaluate { judgements, top: parse_num(n).unwrap() }),
                },
            )
            &&& parse_cli(seq![program, ev, jo, judgements]) == Ok::<CliModel, CliErrorModel>(
                CliModel {
                    keywords: None,
                    top: 3,
                    exact: false,
                    commands: Some(CommandsModel::Evaluate { judgements, top: 10 }),
                },
            )
        }),
{
    let ev = seq!['e', 'v', 'a', 'l', 'u', 'a', 't', 'e'];
    let jo = seq!['-', '-', 'j', 'u', 'd', 'g', 'e', 'm', 'e', 'n', 't', 's'];
    let to = seq!['-', '-', 't', 'o', 'p'];
    let opts = evaluate_opts();
    lemma_number_is_not_an_option(n);
    assert(subcommand_names()[0].len() == 6);
    assert(subcommand_names()[1].len() == 9);
    assert(ev =~= subcommand_names()[2]);
    assert(find_subcommand(ev) == Some(2int));
    assert(jo =~= opts[0].name);
    assert(to =~= opts[1].name);
    assert(jo != seq!['-', '-'] && jo != seq!['-', 'h'] && jo != seq!['-', '-', 'h', 'e', 'l', 'p']);
    assert(to != seq!['-', '-'] && to != seq!['-', 'h'] && to != seq!['-', '-', 'h', 'e', 'l', 'p']);
    assert(has_prefix(jo, seq!['-', '-'])) by {
        assert(jo.take(2) =~= seq!['-', '-']);
    }
    assert(has_prefix(to, seq!['-', '-'])) by {
        assert(to.take(2) =~= seq!['-', '-']);
    }
    assert(find_opt(opts, jo, 0) == Some(0int));
    assert(!has_prefix(to, opts[0].name.push('=')));
    assert(find_opt(opts, to, 1) == Some(1int));
    assert(find_opt(opts, to, 0) == Some(1int));
    let st0 = scan_start(2);
    let head = CliModel { keywords: None, top: 3, exact: false, commands: None };
    assert(st0.values[0] is None && st0.values[1] is None);
    assert(num_or(st0.values[1], 3) == 3);

    // judgements, then --top
    let a = seq![program, ev, jo, judgements, to, n];
    assert(scan(a, 1, top_opts(), 1, false, true, st0) == Ok::<(ScanState, Option<(int, int)>), CliErrorModel>(
        (st0, Some((2int, 2int))),
    ));
    let s1 = ScanState { values: st0.values.update(0, Some(judgements)), ..st0 };
    let s2 = ScanState { values: s1.values.update(1, Some(n)), ..s1 };
    assert(scan(a, 6, opts, 0, false, false, s2) == Ok::<(ScanState, Option<(int, int)>), CliErrorModel>((s2, None)));
    assert(a[5] == n && a[4] == to);
    assert(scan(a, 4, opts, 0, false, false, s1) == scan(a, 6, opts, 0, false, false, s2));
    assert(a[3] == judgements && a[2] == jo);
    assert(scan(a, 2, opts, 0, false, false, st0) == scan(a, 4, opts, 0, false, false, s1));
    assert(s2.values[0] == Some(judgements) && s2.values[1] == Some(n));

    // --top, then judgements
    let b = seq![program, ev, to, n, jo, judgements];
    assert(scan(b, 1, top_opts(), 1, false, true, st0) == Ok::<(ScanState, Option<(int, int)>), CliErrorModel>(
        (st0, Some((2int, 2int))),
    ));
    let t1 = ScanState { values: st0.values.update(1, Some(n)), ..st0 };
    let t2 = ScanState { values: t1.values.update(0, Some(judgements)), ..t1 };
    assert(scan(b, 6, opts, 0, false, false, t2) == Ok::<(ScanState, Option<(int, int)>), CliErrorModel>((t2, None)));
    assert(b[5] == judgements && b[4] == jo);
    assert(scan(b, 4, opts, 0, false, false, t1) == scan(b, 6, opts, 0, false, false, t2));
    assert(b[3] == n && b[2] == to);
    assert(scan(b, 2, opts, 0, false, false, st0) == scan(b, 4, opts, 0, false, false, t1));
    assert(t2.values[0] == Some(judgements) && t2.values[1] == Some(n));

    // judgements alone
    let c = seq![program, ev, jo, judgements];
    assert(scan(c, 1, top_opts(), 1, false, true, st0) == Ok::<(ScanState, Option<(int, int)>), CliErrorModel>(
        (st0, Some((2int, 2int))),
    ));
    assert(scan(c, 4, opts, 0, false, false, s1) == Ok::<(ScanState, Option<(int, int)>), CliErrorModel>((s1, None)));
    assert(c[3] == judgements && c[2] == jo);
    assert(scan(c, 2, opts, 0, false, false, st0) == scan(c, 4, opts, 0, false, false, s1));
    assert(s1.values[0] == Some(judgements) && s1.values[1] is None);
}

} // verus!
