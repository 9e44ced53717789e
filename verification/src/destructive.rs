//! Destructive-ask predicate: is a pending tool call irreversible?
//!
//! Feeds the `destructive` flag of [`crate::attention::AttentionItem`].
//! Behaviour lives in the rule table ([`rules_spec`]) — extend the data,
//! not the matcher.
//!
//! **Input contract:** `tool_input` is the extracted command or statement
//! string — for a `Bash` tool, the payload's `tool_input.command` field —
//! never the serialized JSON envelope. JSON-shaped input matches nothing,
//! so a caller that forgets to extract gets a silent all-false.
//!
//! Biases, both deliberate: a shell rule fires only when the program sits
//! in command position (past wrappers like `sudo` or `bash -c`), so prose
//! that merely *mentions* `rm -rf` stays unflagged, while flag and
//! subcommand matching within the command errs toward flagging. Unknown
//! tool kinds are never destructive.

use vstd::prelude::*;

use crate::text::{
    chars_of, contains_sub, has_prefix, has_sub, is_whitespace, lower_seq, split_whitespace,
    split_ws, starts_with, to_lower_ascii, trim_by, trim_end_by, trim_start_by,
    lemma_trim_end_take, lemma_trim_start_skip, is_ws, occurs_at, split_ws_acc, lemma_split_ws_concat,
};

verus! {

/// Which tools a rule applies to, judged from the tool name alone.
#[derive(Clone, Copy, PartialEq, Eq, Structural)]
pub enum Scope {
    /// Tools that execute shell commands (`Bash`, `run_shell`, …).
    Shell,
    /// Tools whose name says SQL — and only those.
    Sql,
    /// SQL statements precise enough to also scan shell input for.
    ShellOrSql,
}

/// How a rule matches inside the tool input, as plain sequences.
pub enum PatternSpec {
    /// A program invocation in command position of some segment, followed
    /// by the subcommand (when set) and one flag from every group.
    Command {
        program: Seq<char>,
        subcommand: Option<Seq<char>>,
        flag_groups: Seq<Seq<Seq<char>>>,
    },
    /// Adjacent words, case-insensitive, punctuation-trimmed.
    Words(Seq<Seq<char>>),
    /// A raw substring of the input.
    Contains(Seq<char>),
}

/// The executable form of a rule's pattern.
pub enum Pattern {
    /// See [`PatternSpec::Command`].
    Command {
        program: Vec<char>,
        subcommand: Option<Vec<char>>,
        flag_groups: Vec<Vec<Vec<char>>>,
    },
    /// See [`PatternSpec::Words`].
    Words(Vec<Vec<char>>),
    /// See [`PatternSpec::Contains`].
    Contains(Vec<char>),
}

impl Pattern {
    /// The pattern as plain sequences.
    pub open spec fn spec_of(&self) -> PatternSpec {
        match self {
            Pattern::Command { program, subcommand, flag_groups } => PatternSpec::Command {
                program: program@,
                subcommand: match subcommand {
                    Some(s) => Some(s@),
                    None => None,
                },
                flag_groups: flag_groups.deep_view(),
            },
            Pattern::Words(words) => PatternSpec::Words(words.deep_view()),
            Pattern::Contains(needle) => PatternSpec::Contains(needle@),
        }
    }
}

/// A command rule in spec form.
pub open spec fn cmd(
    program: Seq<char>,
    subcommand: Option<Seq<char>>,
    flag_groups: Seq<Seq<Seq<char>>>,
) -> (Scope, PatternSpec) {
    (Scope::Shell, PatternSpec::Command { program, subcommand, flag_groups })
}

/// The rule table — the single place destructiveness is defined.
///
/// | rule | why it is irreversible |
/// |---|---|
/// | `rm` with recursive+force | deletes trees without prompting |
/// | `git push` forced (`-f`/`--force*` flag or `+refspec`) | can discard remote commits |
/// | `git push --delete` | removes a remote ref others may depend on |
/// | `git reset --hard` | discards working-tree and index changes |
/// | `git checkout --`, `git restore` | overwrite working-tree edits in place |
/// | `git clean` with force | deletes untracked files |
/// | `chmod` recursive | rewrites permissions across a tree |
/// | `find … -delete` | recursive delete without prompting |
/// | `truncate` (coreutil or SQL) | empties files or tables in place |
/// | `>\|` redirect | overwrites a file past `noclobber` |
/// | `DROP TABLE`/`DATABASE`/`SCHEMA` | destroys schema objects and their data |
/// | `DELETE FROM` | removes rows |
pub open spec fn rules_spec() -> Seq<(Scope, PatternSpec)> {
    seq![
        cmd("rm"@, None, seq![seq!["-r"@, "-R"@, "--recursive"@], seq!["-f"@, "--force"@]]),
        cmd("git"@, Some("push"@), seq![seq!["-f"@, "--force"@, "--force-with-lease"@, "+"@]]),
        cmd("git"@, Some("push"@), seq![seq!["--delete"@]]),
        cmd("git"@, Some("reset"@), seq![seq!["--hard"@]]),
        cmd("git"@, Some("checkout"@), seq![seq!["--"@]]),
        cmd("git"@, Some("restore"@), seq![]),
        cmd("git"@, Some("clean"@), seq![seq!["-f"@, "--force"@]]),
        cmd("chmod"@, None, seq![seq!["-R"@, "--recursive"@]]),
        cmd("find"@, None, seq![seq!["-delete"@]]),
        cmd("truncate"@, None, seq![]),
        (Scope::Shell, PatternSpec::Contains(">|"@)),
        (Scope::ShellOrSql, PatternSpec::Words(seq!["drop"@, "table"@])),
        (Scope::ShellOrSql, PatternSpec::Words(seq!["drop"@, "database"@])),
        (Scope::ShellOrSql, PatternSpec::Words(seq!["drop"@, "schema"@])),
        (Scope::ShellOrSql, PatternSpec::Words(seq!["delete"@, "from"@])),
        (Scope::Sql, PatternSpec::Words(seq!["truncate"@])),
    ]
}

/// Programs that wrap another command rather than being the command.
pub open spec fn is_wrapper(base: Seq<char>) -> bool {
    ||| base == "sudo"@
    ||| base == "doas"@
    ||| base == "env"@
    ||| base == "nohup"@
    ||| base == "time"@
    ||| base == "command"@
    ||| base == "xargs"@
    ||| base == "bash"@
    ||| base == "sh"@
    ||| base == "zsh"@
}

/// The tool name suggests shell-command execution.
pub open spec fn is_shell_tool(name: Seq<char>) -> bool {
    let n = lower_seq(name);
    ||| has_sub(n, "bash"@)
    ||| has_sub(n, "shell"@)
    ||| has_sub(n, "terminal"@)
    ||| has_sub(n, "exec"@)
    ||| has_sub(n, "command"@)
    ||| has_sub(n, "cmd"@)
}

/// The tool name says SQL — deliberately just `sql`.
pub open spec fn is_sql_tool(name: Seq<char>) -> bool {
    has_sub(lower_seq(name), "sql"@)
}

/// `s` with every backslash-newline continuation replaced by a space,
/// scanning left to right.
pub open spec fn unfold_lines(s: Seq<char>) -> Seq<char>
    decreases s.len(),
{
    if s.len() >= 2 && s[0] == '\\' && s[1] == '\n' {
        seq![' '] + unfold_lines(s.skip(2))
    } else if s.len() > 0 {
        seq![s[0]] + unfold_lines(s.skip(1))
    } else {
        s
    }
}

/// Shell command separators.
pub open spec fn is_separator(c: char) -> bool {
    c == '|' || c == '&' || c == ';' || c == '\n'
}

/// Segments built left to right: the finished ones and the one being read.
pub open spec fn segments_acc(s: Seq<char>) -> (Seq<Seq<char>>, Seq<char>)
    decreases s.len(),
{
    if s.len() == 0 {
        (Seq::empty(), Seq::empty())
    } else {
        let (done, cur) = segments_acc(s.drop_last());
        if is_separator(s.last()) {
            (done.push(cur), Seq::empty())
        } else {
            (done, cur.push(s.last()))
        }
    }
}

/// The pieces of `s` between separators, empty ones included — what
/// `str::split(['|', '&', ';', '\n'])` yields.
pub open spec fn segments(s: Seq<char>) -> Seq<Seq<char>> {
    let (done, cur) = segments_acc(s);
    done.push(cur)
}

/// The part of `t` after its last `/`, or all of `t` without one.
pub open spec fn basename(t: Seq<char>) -> Seq<char>
    decreases t.len(),
{
    if t.len() == 0 {
        t
    } else if t.last() == '/' {
        Seq::empty()
    } else {
        basename(t.drop_last()).push(t.last())
    }
}

/// A shell quote.
pub open spec fn is_quote(c: char) -> bool {
    c == '"' || c == '\''
}

/// The quote predicate, as a value.
pub open spec fn quote_pred() -> spec_fn(char) -> bool {
    |c: char| is_quote(c)
}

/// An ASCII letter or digit.
pub open spec fn is_ascii_alnum(c: char) -> bool {
    ('a' <= c && c <= 'z') || ('A' <= c && c <= 'Z') || ('0' <= c && c <= '9')
}

/// The punctuation predicate words are trimmed by.
pub open spec fn punct_pred() -> spec_fn(char) -> bool {
    |c: char| !is_ascii_alnum(c)
}

/// A token with surrounding shell quotes removed.
pub open spec fn unquote(t: Seq<char>) -> Seq<char> {
    trim_by(t, quote_pred())
}

/// A token sits in command position: not a wrapper, a flag, or a `VAR=x`
/// assignment.
pub open spec fn at_command(t: Seq<char>) -> bool {
    !(is_wrapper(basename(t)) || starts_with(t, seq!['-']) || t.contains('='))
}

/// One token carries the flag: long flags exactly or with `=value`; short
/// flags as a letter inside a combined run; dashless flags as a prefix.
pub open spec fn flag_hits(token: Seq<char>, flag: Seq<char>) -> bool {
    if starts_with(flag, seq!['-', '-']) {
        let long = flag.skip(2);
        starts_with(token, seq!['-', '-']) && {
            let t = token.skip(2);
            t == long || (starts_with(t, long) && t.len() > long.len() && t[long.len() as int]
                == '=')
        }
    } else if starts_with(flag, seq!['-']) {
        starts_with(token, seq!['-']) && !starts_with(token, seq!['-', '-']) && has_sub(
            token.skip(1),
            flag.skip(1),
        )
    } else {
        starts_with(token, flag)
    }
}

/// Some token of `rest` carries some flag of `group`.
pub open spec fn group_hits(rest: Seq<Seq<char>>, group: Seq<Seq<char>>) -> bool {
    exists|t: int, f: int|
        0 <= t < rest.len() && 0 <= f < group.len() && flag_hits(rest[t], group[f])
}

/// The words after the program carry the subcommand and every flag group.
pub open spec fn rest_matches(
    rest: Seq<Seq<char>>,
    subcommand: Option<Seq<char>>,
    flag_groups: Seq<Seq<Seq<char>>>,
) -> bool {
    &&& match subcommand {
        Some(sub) => rest.contains(sub),
        None => true,
    }
    &&& forall|g: int| 0 <= g < flag_groups.len() ==> group_hits(rest, #[trigger] flag_groups[g])
}

/// The unquoted whitespace tokens of a segment.
pub open spec fn command_tokens(segment: Seq<char>) -> Seq<Seq<char>> {
    split_ws(segment).map_values(|t: Seq<char>| unquote(t))
}

/// One segment invokes `program` in command position — the first token
/// past wrappers, flags and assignments, compared by basename — followed
/// by the subcommand and every flag group.
pub open spec fn command_matches(
    segment: Seq<char>,
    program: Seq<char>,
    subcommand: Option<Seq<char>>,
    flag_groups: Seq<Seq<Seq<char>>>,
) -> bool {
    let tokens = command_tokens(segment);
    exists|at: int|
        #[trigger] first_command(tokens, at) && basename(tokens[at]) == program && rest_matches(
            tokens.skip(at + 1),
            subcommand,
            flag_groups,
        )
}

/// `tokens[at]` is the first token in command position.
pub open spec fn first_command(tokens: Seq<Seq<char>>, at: int) -> bool {
    0 <= at < tokens.len() && at_command(tokens[at]) && forall|j: int|
        0 <= j < at ==> !at_command(#[trigger] tokens[j])
}

/// ASCII-case-insensitive equality.
pub open spec fn eq_ignore_case(a: Seq<char>, b: Seq<char>) -> bool {
    lower_seq(a) == lower_seq(b)
}

/// The punctuation-trimmed whitespace tokens of the input.
pub open spec fn word_tokens(input: Seq<char>) -> Seq<Seq<char>> {
    split_ws(input).map_values(|t: Seq<char>| trim_by(t, punct_pred()))
}

/// The words appear adjacent in the input, case-insensitive; an empty word
/// list never matches.
pub open spec fn words_match(input: Seq<char>, words: Seq<Seq<char>>) -> bool {
    let tokens = word_tokens(input);
    words.len() > 0 && exists|w: int| #[trigger] window_matches(tokens, w, words)
}

/// The tokens from `w` on spell out `words`, case-insensitively.
pub open spec fn window_matches(tokens: Seq<Seq<char>>, w: int, words: Seq<Seq<char>>) -> bool {
    0 <= w && w + words.len() <= tokens.len() && forall|j: int|
        0 <= j < words.len() ==> eq_ignore_case(#[trigger] tokens[w + j], words[j])
}

/// A pattern matches the (unfolded) input.
pub open spec fn pattern_matches(pattern: PatternSpec, input: Seq<char>) -> bool {
    match pattern {
        PatternSpec::Command { program, subcommand, flag_groups } => exists|k: int|
            0 <= k < segments(input).len() && command_matches(
                #[trigger] segments(input)[k],
                program,
                subcommand,
                flag_groups,
            ),
        PatternSpec::Words(words) => words_match(input, words),
        PatternSpec::Contains(needle) => has_sub(input, needle),
    }
}

/// A rule of `scope` applies to a tool with these kinds.
pub open spec fn scope_applies(scope: Scope, shell: bool, sql: bool) -> bool {
    match scope {
        Scope::Shell => shell,
        Scope::Sql => sql,
        Scope::ShellOrSql => shell || sql,
    }
}

/// Whether a pending tool call is irreversible: some rule of the table
/// applies to the tool's kind and matches its unfolded input.
pub open spec fn destructive(tool_name: Seq<char>, tool_input: Seq<char>) -> bool {
    let shell = is_shell_tool(tool_name);
    let sql = is_sql_tool(tool_name);
    exists|k: int|
        0 <= k < rules_spec().len() && scope_applies(#[trigger] rules_spec()[k].0, shell, sql)
            && pattern_matches(rules_spec()[k].1, unfold_lines(tool_input))
}


/// A tool whose name holds, in any letter case, one of `bash`, `shell`,
/// `terminal`, `exec`, `command` or `cmd` is a shell tool: every rule not
/// scoped to SQL alone applies to it, so an input such a rule matches
/// makes the call destructive, whatever else the name says.
pub proof fn lemma_shell_named_tools_get_shell_rules(
    tool_name: Seq<char>,
    tool_input: Seq<char>,
    word: Seq<char>,
    at: int,
    k: int,
)
    requires
        word == "bash"@ || word == "shell"@ || word == "terminal"@ || word == "exec"@ || word
            == "command"@ || word == "cmd"@,
        occurs_at(lower_seq(tool_name), word, at),
        0 <= k < rules_spec().len(),
        rules_spec()[k].0 != Scope::Sql,
        pattern_matches(rules_spec()[k].1, unfold_lines(tool_input)),
    ensures
        destructive(tool_name, tool_input),
{
    assert(has_sub(lower_seq(tool_name), word));
    assert(scope_applies(rules_spec()[k].0, is_shell_tool(tool_name), is_sql_tool(tool_name)));
}

/// A tool whose name holds none of the shell words (`bash`, `shell`,
/// `terminal`, `exec`, `command`, `cmd`) nor `sql`, in any letter case, is
/// of no known kind: no rule applies to it and no input makes it
/// destructive.
pub proof fn lemma_unknown_tools_are_never_destructive(tool_name: Seq<char>, tool_input: Seq<char>)
    requires
        !has_sub(lower_seq(tool_name), "bash"@),
        !has_sub(lower_seq(tool_name), "shell"@),
        !has_sub(lower_seq(tool_name), "terminal"@),
        !has_sub(lower_seq(tool_name), "exec"@),
        !has_sub(lower_seq(tool_name), "command"@),
        !has_sub(lower_seq(tool_name), "cmd"@),
        !has_sub(lower_seq(tool_name), "sql"@),
    ensures
        !destructive(tool_name, tool_input),
{
}

/// One rule of the table in executable form.
pub struct Rule {
    /// Which tools the rule applies to.
    pub scope: Scope,
    /// What it matches.
    pub pattern: Pattern,
}

/// The chars of a literal.
fn lit(s: &str) -> (v: Vec<char>)
    ensures
        v@ == s@,
{
    chars_of(s)
}

/// A command rule in executable form.
fn command_rule(
    program: &str,
    subcommand: Option<&str>,
    flag_groups: Vec<Vec<Vec<char>>>,
) -> (r: Rule)
    ensures
        (r.scope, r.pattern.spec_of()) == cmd(
            program@,
            match subcommand {
                Some(s) => Some(s@),
                None => None,
            },
            flag_groups.deep_view(),
        ),
{
    let sub = match subcommand {
        Some(s) => Some(lit(s)),
        None => None,
    };
    Rule {
        scope: Scope::Shell,
        pattern: Pattern::Command { program: lit(program), subcommand: sub, flag_groups },
    }
}

/// A group of one literal.
fn g1(a: &str) -> (g: Vec<Vec<char>>)
    ensures
        g.deep_view() == seq![a@],
{
    let av = lit(a);
    assert(av.deep_view() =~= a@);
    let v = vec![av];
    assert(v.deep_view() =~= seq![a@]);
    v
}

/// A group of two literals.
fn g2(a: &str, b: &str) -> (g: Vec<Vec<char>>)
    ensures
        g.deep_view() == seq![a@, b@],
{
    let av = lit(a);
    assert(av.deep_view() =~= a@);
    let bv = lit(b);
    assert(bv.deep_view() =~= b@);
    let v = vec![av, bv];
    assert(v.deep_view() =~= seq![a@, b@]);
    v
}

/// A group of three literals.
fn g3(a: &str, b: &str, c: &str) -> (g: Vec<Vec<char>>)
    ensures
        g.deep_view() == seq![a@, b@, c@],
{
    let av = lit(a);
    assert(av.deep_view() =~= a@);
    let bv = lit(b);
    assert(bv.deep_view() =~= b@);
    let cv = lit(c);
    assert(cv.deep_view() =~= c@);
    let v = vec![av, bv, cv];
    assert(v.deep_view() =~= seq![a@, b@, c@]);
    v
}

/// A group of four literals.
fn g4(a: &str, b: &str, c: &str, d: &str) -> (g: Vec<Vec<char>>)
    ensures
        g.deep_view() == seq![a@, b@, c@, d@],
{
    let av = lit(a);
    assert(av.deep_view() =~= a@);
    let bv = lit(b);
    assert(bv.deep_view() =~= b@);
    let cv = lit(c);
    assert(cv.deep_view() =~= c@);
    let dv = lit(d);
    assert(dv.deep_view() =~= d@);
    let v = vec![av, bv, cv, dv];
    assert(v.deep_view() =~= seq![a@, b@, c@, d@]);
    v
}

/// Flag groups from groups.
fn groups(gs: Vec<Vec<Vec<char>>>) -> (r: Vec<Vec<Vec<char>>>)
    ensures
        r.deep_view() == gs.deep_view(),
{
    gs
}

/// The rule table, built.
pub fn rules() -> (r: Vec<Rule>)
    ensures
        r@.len() == rules_spec().len(),
        forall|k: int|
            0 <= k < r@.len() ==> (#[trigger] r@[k].scope, r@[k].pattern.spec_of())
                == rules_spec()[k],
{
    let r0 = {
        let a = g3("-r", "-R", "--recursive");
        let b = g2("-f", "--force");
        let ghost (av, bv) = (a.deep_view(), b.deep_view());
        let gs = vec![a, b];
        assert(gs.deep_view() =~= seq![av, bv]);
        command_rule("rm", None, gs)
    };
    let r1 = {
        let a = g4("-f", "--force", "--force-with-lease", "+");
        let ghost av = a.deep_view();
        let gs = vec![a];
        assert(gs.deep_view() =~= seq![av]);
        command_rule("git", Some("push"), gs)
    };
    let r2 = {
        let a = g1("--delete");
        let ghost av = a.deep_view();
        let gs = vec![a];
        assert(gs.deep_view() =~= seq![av]);
        command_rule("git", Some("push"), gs)
    };
    let r3 = {
        let a = g1("--hard");
        let ghost av = a.deep_view();
        let gs = vec![a];
        assert(gs.deep_view() =~= seq![av]);
        command_rule("git", Some("reset"), gs)
    };
    let r4 = {
        let a = g1("--");
        let ghost av = a.deep_view();
        let gs = vec![a];
        assert(gs.deep_view() =~= seq![av]);
        command_rule("git", Some("checkout"), gs)
    };
    let r5 = {
        let gs: Vec<Vec<Vec<char>>> = Vec::new();
        assert(gs.deep_view() =~= seq![]);
        command_rule("git", Some("restore"), gs)
    };
    let r6 = {
        let a = g2("-f", "--force");
        let ghost av = a.deep_view();
        let gs = vec![a];
        assert(gs.deep_view() =~= seq![av]);
        command_rule("git", Some("clean"), gs)
    };
    let r7 = {
        let a = g2("-R", "--recursive");
        let ghost av = a.deep_view();
        let gs = vec![a];
        assert(gs.deep_view() =~= seq![av]);
        command_rule("chmod", None, gs)
    };
    let r8 = {
        let a = g1("-delete");
        let ghost av = a.deep_view();
        let gs = vec![a];
        assert(gs.deep_view() =~= seq![av]);
        command_rule("find", None, gs)
    };
    let r9 = {
        let gs: Vec<Vec<Vec<char>>> = Vec::new();
        assert(gs.deep_view() =~= seq![]);
        command_rule("truncate", None, gs)
    };
    let r10 = Rule { scope: Scope::Shell, pattern: Pattern::Contains(lit(">|")) };
    let r11 = Rule { scope: Scope::ShellOrSql, pattern: Pattern::Words(g2("drop", "table")) };
    let r12 = Rule { scope: Scope::ShellOrSql, pattern: Pattern::Words(g2("drop", "database")) };
    let r13 = Rule { scope: Scope::ShellOrSql, pattern: Pattern::Words(g2("drop", "schema")) };
    let r14 = Rule { scope: Scope::ShellOrSql, pattern: Pattern::Words(g2("delete", "from")) };
    let r15 = Rule { scope: Scope::Sql, pattern: Pattern::Words(g1("truncate")) };
    let r = vec![r0, r1, r2, r3, r4, r5, r6, r7, r8, r9, r10, r11, r12, r13, r14, r15];
    r
}


/// Whether two char sequences are equal.
pub fn same_chars(a: &[char], b: &[char]) -> (r: bool)
    ensures
        r == (a@ == b@),
{
    if a.len() != b.len() {
        return false;
    }
    let mut i: usize = 0;
    while i < a.len()
        invariant
            a@.len() == b@.len(),
            i <= a@.len(),
            forall|j: int| 0 <= j < i ==> a@[j] == b@[j],
        decreases a@.len() - i,
    {
        if a[i] != b[i] {
            return false;
        }
        i = i + 1;
    }
    assert(a@ =~= b@);
    true
}

/// `s` with backslash-newline continuations unfolded into spaces.
fn unfold(s: &[char]) -> (r: Vec<char>)
    ensures
        r@ == unfold_lines(s@),
{
    let mut out: Vec<char> = Vec::new();
    let mut i: usize = 0;
    assert(s@.skip(0) =~= s@);
    while i < s.len()
        invariant
            i <= s@.len(),
            out@ + unfold_lines(s@.skip(i as int)) == unfold_lines(s@),
        decreases s@.len() - i,
    {
        let ghost rest = s@.skip(i as int);
        if i + 1 < s.len() && s[i] == '\\' && s[i + 1] == '\n' {
            assert(rest.skip(2) =~= s@.skip(i + 2));
            assert(unfold_lines(rest) == seq![' '] + unfold_lines(s@.skip(i + 2)));
            out.push(' ');
            assert(out@ + unfold_lines(s@.skip(i + 2)) =~= unfold_lines(s@)) by {
                assert(out@ =~= out@.drop_last().push(' '));
            }
            i = i + 2;
        } else {
            assert(rest.skip(1) =~= s@.skip(i + 1));
            assert(unfold_lines(rest) == seq![s@[i as int]] + unfold_lines(s@.skip(i + 1)));
            out.push(s[i]);
            assert(out@ + unfold_lines(s@.skip(i + 1)) =~= unfold_lines(s@));
            i = i + 1;
        }
    }
    assert(unfold_lines(s@.skip(i as int)) =~= Seq::empty());
    assert(out@ =~= out@ + Seq::<char>::empty());
    out
}

/// Whether `c` separates shell command segments.
fn separator(c: char) -> (r: bool)
    ensures
        r == is_separator(c),
{
    c == '|' || c == '&' || c == ';' || c == '\n'
}

/// The command segments of `s`.
fn segments_of(s: &[char]) -> (r: Vec<Vec<char>>)
    ensures
        r.deep_view() == segments(s@),
{
    let mut done: Vec<Vec<char>> = Vec::new();
    let mut cur: Vec<char> = Vec::new();
    for i in 0..s.len()
        invariant
            (done.deep_view(), cur@) == segments_acc(s@.take(i as int)),
    {
        assert(s@.take(i + 1).drop_last() =~= s@.take(i as int));
        let c = s[i];
        if separator(c) {
            let piece = cur;
            cur = Vec::new();
            let ghost before = done.deep_view();
            let ghost pv = piece.deep_view();
            assert(pv =~= piece@);
            done.push(piece);
            assert(done.deep_view() =~= before.push(pv));
        } else {
            cur.push(c);
        }
    }
    assert(s@.take(s.len() as int) =~= s@);
    let ghost before = done.deep_view();
    let ghost pv = cur.deep_view();
    assert(pv =~= cur@);
    done.push(cur);
    assert(done.deep_view() =~= before.push(pv));
    done
}

/// What a trim strips.
#[derive(Clone, Copy)]
enum TrimKind {
    /// Shell quotes.
    Quotes,
    /// Anything but ASCII letters and digits.
    Punctuation,
}

/// The predicate a trim kind strips by.
spec fn kind_pred(kind: TrimKind) -> spec_fn(char) -> bool {
    match kind {
        TrimKind::Quotes => quote_pred(),
        TrimKind::Punctuation => punct_pred(),
    }
}

/// Whether the trim kind strips `c`.
fn strips(kind: TrimKind, c: char) -> (r: bool)
    ensures
        r == kind_pred(kind)(c),
{
    match kind {
        TrimKind::Quotes => c == '"' || c == '\'',
        TrimKind::Punctuation => !(('a' <= c && c <= 'z') || ('A' <= c && c <= 'Z') || ('0' <= c
            && c <= '9')),
    }
}

/// `t` with the kind's chars stripped from both ends.
fn trim_kind(t: &[char], kind: TrimKind) -> (r: Vec<char>)
    ensures
        r@ == trim_by(t@, kind_pred(kind)),
{
    let ghost pred = kind_pred(kind);
    let mut i: usize = 0;
    while i < t.len() && strips(kind, t[i])
        invariant
            i <= t@.len(),
            pred == kind_pred(kind),
            forall|j: int| 0 <= j < i ==> pred(#[trigger] t@[j]),
        decreases t@.len() - i,
    {
        i = i + 1;
    }
    proof {
        lemma_trim_start_skip(t@, pred, i as int);
    }
    let mut e: usize = t.len();
    while e > i && strips(kind, t[e - 1])
        invariant
            i <= e <= t@.len(),
            pred == kind_pred(kind),
            forall|j: int| e <= j < t@.len() ==> pred(#[trigger] t@[j]),
        decreases e,
    {
        e = e - 1;
    }
    let ghost kept = t@.skip(i as int);
    proof {
        assert forall|j: int| e - i <= j < kept.len() implies pred(#[trigger] kept[j]) by {
            assert(kept[j] == t@[i + j]);
        }
        if e > i {
            assert(kept[e - i - 1] == t@[e - 1]);
        }
        lemma_trim_end_take(kept, pred, e - i);
    }
    let mut r: Vec<char> = Vec::new();
    let mut k: usize = i;
    while k < e
        invariant
            i <= k <= e <= t@.len(),
            r@ == t@.subrange(i as int, k as int),
        decreases e - k,
    {
        r.push(t[k]);
        assert(t@.subrange(i as int, k + 1) =~= t@.subrange(i as int, k as int).push(t@[k as int]));
        k = k + 1;
    }
    assert(r@ =~= kept.take(e - i));
    r
}

/// The part of `t` after its last `/`.
pub proof fn lemma_basename_skip(t: Seq<char>, k: int)
    requires
        0 <= k <= t.len(),
        k == 0 || t[k - 1] == '/',
        forall|j: int| k <= j < t.len() ==> #[trigger] t[j] != '/',
    ensures
        basename(t) == t.skip(k),
    decreases t.len(),
{
    if t.len() == 0 {
        assert(t.skip(k) =~= t);
    } else if t.last() == '/' {
        assert(k == t.len());
        assert(t.skip(k) =~= Seq::<char>::empty());
    } else {
        lemma_basename_skip(t.drop_last(), k);
        assert(t.drop_last().skip(k).push(t.last()) =~= t.skip(k));
    }
}

/// The basename of `t`.
pub fn basename_of(t: &[char]) -> (r: Vec<char>)
    ensures
        r@ == basename(t@),
{
    let mut k: usize = t.len();
    while k > 0 && t[k - 1] != '/'
        invariant
            k <= t@.len(),
            forall|j: int| k <= j < t@.len() ==> #[trigger] t@[j] != '/',
        decreases k,
    {
        k = k - 1;
    }
    proof {
        lemma_basename_skip(t@, k as int);
    }
    let mut r: Vec<char> = Vec::new();
    let mut i: usize = k;
    while i < t.len()
        invariant
            k <= i <= t@.len(),
            r@ == t@.subrange(k as int, i as int),
        decreases t@.len() - i,
    {
        r.push(t[i]);
        assert(t@.subrange(k as int, i + 1) =~= t@.subrange(k as int, i as int).push(t@[i as int]));
        i = i + 1;
    }
    assert(r@ =~= t@.skip(k as int));
    r
}

/// Whether `base` names a wrapper program.
fn wrapper(base: &[char]) -> (r: bool)
    ensures
        r == is_wrapper(base@),
{
    same_chars(base, &lit("sudo")) || same_chars(base, &lit("doas")) || same_chars(
        base,
        &lit("env"),
    ) || same_chars(base, &lit("nohup")) || same_chars(base, &lit("time")) || same_chars(
        base,
        &lit("command"),
    ) || same_chars(base, &lit("xargs")) || same_chars(base, &lit("bash")) || same_chars(
        base,
        &lit("sh"),
    ) || same_chars(base, &lit("zsh"))
}

/// Whether `t` holds `c`.
fn has_char(t: &[char], c: char) -> (r: bool)
    ensures
        r == t@.contains(c),
{
    let mut i: usize = 0;
    while i < t.len()
        invariant
            i <= t@.len(),
            forall|j: int| 0 <= j < i ==> t@[j] != c,
        decreases t@.len() - i,
    {
        if t[i] == c {
            return true;
        }
        i = i + 1;
    }
    false
}

/// Whether `t` starts with the single char `c`.
fn starts_with_char(t: &[char], c: char) -> (r: bool)
    ensures
        r == starts_with(t@, seq![c]),
{
    let r = t.len() > 0 && t[0] == c;
    proof {
        if t@.len() > 0 {
            if t@[0] == c {
                assert(t@.take(1) =~= seq![c]);
            } else {
                assert(t@.take(1)[0] != seq![c][0]);
            }
        }
    }
    r
}

/// Whether `t` starts with `--`.
fn starts_with_dashes(t: &[char]) -> (r: bool)
    ensures
        r == starts_with(t@, seq!['-', '-']),
{
    let r = t.len() > 1 && t[0] == '-' && t[1] == '-';
    proof {
        if t@.len() > 1 {
            if t@[0] == '-' && t@[1] == '-' {
                assert(t@.take(2) =~= seq!['-', '-']);
            } else if t@[0] != '-' {
                assert(t@.take(2)[0] != seq!['-', '-'][0]);
            } else {
                assert(t@.take(2)[1] != seq!['-', '-'][1]);
            }
        }
    }
    r
}

/// Whether the token sits in command position.
fn at_command_exec(t: &[char]) -> (r: bool)
    ensures
        r == at_command(t@),
{
    let base = basename_of(t);
    !(wrapper(&base) || starts_with_char(t, '-') || has_char(t, '='))
}

/// `t` without its first `n` chars.
fn skip_chars(t: &[char], n: usize) -> (r: Vec<char>)
    requires
        n <= t@.len(),
    ensures
        r@ == t@.skip(n as int),
{
    let mut r: Vec<char> = Vec::new();
    let mut i: usize = n;
    while i < t.len()
        invariant
            n <= i <= t@.len(),
            r@ == t@.subrange(n as int, i as int),
        decreases t@.len() - i,
    {
        r.push(t[i]);
        assert(t@.subrange(n as int, i + 1) =~= t@.subrange(n as int, i as int).push(t@[i as int]));
        i = i + 1;
    }
    assert(r@ =~= t@.skip(n as int));
    r
}

/// Whether one token carries the flag.
fn flag_hits_exec(token: &[char], flag: &[char]) -> (r: bool)
    ensures
        r == flag_hits(token@, flag@),
{
    if starts_with_dashes(flag) {
        if !starts_with_dashes(token) {
            return false;
        }
        let long = skip_chars(flag, 2);
        let t = skip_chars(token, 2);
        same_chars(&t, &long) || (has_prefix(&t, &long) && t.len() > long.len() && t[long.len()]
            == '=')
    } else if starts_with_char(flag, '-') {
        if !starts_with_char(token, '-') || starts_with_dashes(token) {
            return false;
        }
        let letter = skip_chars(flag, 1);
        let rest = skip_chars(token, 1);
        contains_sub(&rest, &letter)
    } else {
        has_prefix(token, flag)
    }
}

/// Some token of `tokens` from `from` on carries some flag of `group`.
fn group_hits_exec(tokens: &Vec<Vec<char>>, from: usize, group: &Vec<Vec<char>>) -> (r: bool)
    requires
        from <= tokens@.len(),
    ensures
        r == group_hits(tokens.deep_view().skip(from as int), group.deep_view()),
{
    let ghost rest = tokens.deep_view().skip(from as int);
    let ghost gv = group.deep_view();
    let mut t: usize = from;
    while t < tokens.len()
        invariant
            from <= t <= tokens@.len(),
            rest == tokens.deep_view().skip(from as int),
            gv == group.deep_view(),
            forall|a: int, f: int|
                0 <= a < t - from && 0 <= f < gv.len() ==> !flag_hits(rest[a], gv[f]),
        decreases tokens@.len() - t,
    {
        let mut f: usize = 0;
        while f < group.len()
            invariant
                from <= t < tokens@.len(),
                f <= group@.len(),
                rest == tokens.deep_view().skip(from as int),
                gv == group.deep_view(),
                forall|a: int, g: int|
                    0 <= a < t - from && 0 <= g < gv.len() ==> !flag_hits(rest[a], gv[g]),
                forall|g: int| 0 <= g < f ==> !flag_hits(rest[t - from], gv[g]),
            decreases group@.len() - f,
        {
            assert(rest[t - from] == tokens@[t as int]@);
            assert(gv[f as int] == group@[f as int]@);
            if flag_hits_exec(&tokens[t], &group[f]) {
                assert(flag_hits(rest[t - from], gv[f as int]));
                return true;
            }
            f = f + 1;
        }
        t = t + 1;
    }
    false
}

/// The unquoted whitespace tokens of a segment.
fn command_tokens_of(segment: &[char]) -> (r: Vec<Vec<char>>)
    ensures
        r.deep_view() == command_tokens(segment@),
{
    let raw = split_whitespace(segment);
    let ghost rv = raw.deep_view();
    let mut r: Vec<Vec<char>> = Vec::new();
    for i in 0..raw.len()
        invariant
            rv == raw.deep_view(),
            rv == split_ws(segment@),
            r.deep_view() == rv.take(i as int).map_values(|t: Seq<char>| unquote(t)),
    {
        let ghost before = r.deep_view();
        assert(rv[i as int] == raw@[i as int]@);
        let u = trim_kind(&raw[i], TrimKind::Quotes);
        let ghost uv = u.deep_view();
        assert(uv =~= u@);
        r.push(u);
        assert(r.deep_view() =~= before.push(uv));
        assert(rv.take(i + 1).map_values(|t: Seq<char>| unquote(t)) =~= rv.take(i as int).map_values(
            |t: Seq<char>| unquote(t),
        ).push(unquote(rv[i as int])));
    }
    assert(rv.take(raw.len() as int) =~= rv);
    r
}

/// Whether some token from `from` on equals `word`.
fn contains_token(tokens: &Vec<Vec<char>>, from: usize, word: &Vec<char>) -> (r: bool)
    requires
        from <= tokens@.len(),
    ensures
        r == tokens.deep_view().skip(from as int).contains(word@),
{
    let ghost rest = tokens.deep_view().skip(from as int);
    let mut t: usize = from;
    while t < tokens.len()
        invariant
            from <= t <= tokens@.len(),
            rest == tokens.deep_view().skip(from as int),
            rest.len() == tokens@.len() - from,
            forall|a: int| 0 <= a < t - from ==> rest[a] != word@,
        decreases tokens@.len() - t,
    {
        assert(rest[t - from] == tokens@[t as int]@);
        if same_chars(&tokens[t], word) {
            assert(rest[t - from] == word@);
            return true;
        }
        t = t + 1;
    }
    false
}

/// Whether one segment invokes the program with the subcommand and flags.
fn command_matches_exec(
    segment: &[char],
    program: &Vec<char>,
    subcommand: &Option<Vec<char>>,
    flag_groups: &Vec<Vec<Vec<char>>>,
) -> (r: bool)
    ensures
        r == command_matches(
            segment@,
            program@,
            match subcommand {
                Some(s) => Some(s@),
                None => None,
            },
            flag_groups.deep_view(),
        ),
{
    let ghost sub = match subcommand {
        Some(s) => Some(s@),
        None => None,
    };
    let tokens = command_tokens_of(segment);
    let ghost tv = tokens.deep_view();
    let mut at: usize = 0;
    while at < tokens.len() && !at_command_exec(&tokens[at])
        invariant
            at <= tokens@.len(),
            tv == tokens.deep_view(),
            forall|j: int| 0 <= j < at ==> !at_command(#[trigger] tv[j]),
        decreases tokens@.len() - at,
    {
        assert(tv[at as int] == tokens@[at as int]@);
        at = at + 1;
    }
    if at == tokens.len() {
        return false;
    }
    assert(tv[at as int] == tokens@[at as int]@);
    // Any command position is this first one.
    assert forall|a: int| #[trigger] first_command(tv, a) implies a == at by {
        if a < at {
        } else if a > at {
            assert(!at_command(tv[at as int]));
        }
    }
    assert(first_command(tv, at as int));
    let base = basename_of(&tokens[at]);
    if !same_chars(&base, program) {
        return false;
    }
    let next = at + 1;
    let ghost rest = tv.skip(next as int);
    let sub_ok = match subcommand {
        Some(sub_chars) => contains_token(&tokens, next, sub_chars),
        None => true,
    };
    if !sub_ok {
        return false;
    }
    let ghost gv = flag_groups.deep_view();
    let mut g: usize = 0;
    while g < flag_groups.len()
        invariant
            g <= flag_groups@.len(),
            next <= tokens@.len(),
            tv == tokens.deep_view(),
            rest == tv.skip(next as int),
            gv == flag_groups.deep_view(),
            next == at + 1,
            tv == command_tokens(segment@),
            sub == match subcommand {
                Some(s) => Some(s@),
                None => None,
            },
            forall|a: int| #[trigger] first_command(tv, a) ==> a == at,
            forall|k: int| 0 <= k < g ==> group_hits(rest, #[trigger] gv[k]),
        decreases flag_groups@.len() - g,
    {
        assert(gv[g as int] == flag_groups@[g as int].deep_view());
        if !group_hits_exec(&tokens, next, &flag_groups[g]) {
            assert(!rest_matches(rest, sub, gv));
            assert(tv == command_tokens(segment@));
            assert forall|a: int| #[trigger] first_command(tv, a) && basename(tv[a]) == program@ implies !rest_matches(tv.skip(a + 1), sub, gv) by {
                assert(a == at);
            }
            assert(!command_matches(segment@, program@, sub, gv));
            return false;
        }
        g = g + 1;
    }
    assert(rest_matches(rest, sub, gv));
    true
}

/// ASCII-case-insensitive equality.
fn eq_ignore_case_exec(a: &[char], b: &[char]) -> (r: bool)
    ensures
        r == eq_ignore_case(a@, b@),
{
    let la = to_lower_ascii(a);
    let lb = to_lower_ascii(b);
    same_chars(&la, &lb)
}

/// Whether the tokens from `w` on spell out `words`.
fn window_at(tokens: &Vec<Vec<char>>, w: usize, words: &Vec<Vec<char>>) -> (r: bool)
    requires
        w + words@.len() <= tokens@.len(),
    ensures
        r == window_matches(tokens.deep_view(), w as int, words.deep_view()),
{
    let ghost tv = tokens.deep_view();
    let ghost wv = words.deep_view();
    let n = tokens.len();
    let mut j: usize = 0;
    while j < words.len()
        invariant
            n == tokens@.len(),
            w + words@.len() <= tokens@.len(),
            j <= words@.len(),
            tv == tokens.deep_view(),
            wv == words.deep_view(),
            forall|k: int| 0 <= k < j ==> eq_ignore_case(#[trigger] tv[w + k], wv[k]),
        decreases words@.len() - j,
    {
        assert(tv[w + j] == tokens@[w + j]@);
        assert(wv[j as int] == words@[j as int]@);
        if !eq_ignore_case_exec(&tokens[w + j], &words[j]) {
            return false;
        }
        j = j + 1;
    }
    true
}

/// Whether the words appear adjacent in the input.
fn words_match_exec(input: &[char], words: &Vec<Vec<char>>) -> (r: bool)
    ensures
        r == words_match(input@, words.deep_view()),
{
    let ghost wv = words.deep_view();
    assert(wv.len() == words@.len());
    if words.len() == 0 {
        return false;
    }
    let raw = split_whitespace(input);
    let ghost rv = raw.deep_view();
    let mut tokens: Vec<Vec<char>> = Vec::new();
    for i in 0..raw.len()
        invariant
            rv == raw.deep_view(),
            rv == split_ws(input@),
            tokens.deep_view() == rv.take(i as int).map_values(|t: Seq<char>| trim_by(t, punct_pred())),
    {
        let ghost before = tokens.deep_view();
        assert(rv[i as int] == raw@[i as int]@);
        let u = trim_kind(&raw[i], TrimKind::Punctuation);
        let ghost uv = u.deep_view();
        assert(uv =~= u@);
        tokens.push(u);
        assert(tokens.deep_view() =~= before.push(uv));
        assert(rv.take(i + 1).map_values(|t: Seq<char>| trim_by(t, punct_pred())) =~= rv.take(
            i as int,
        ).map_values(|t: Seq<char>| trim_by(t, punct_pred())).push(trim_by(rv[i as int], punct_pred())));
    }
    assert(rv.take(raw.len() as int) =~= rv);
    let ghost tv = tokens.deep_view();
    assert(tv == word_tokens(input@));
    if words.len() > tokens.len() {
        assert forall|w: int| !window_matches(tv, w, wv) by {}
        return false;
    }
    let last = tokens.len() - words.len();
    let mut w: usize = 0;
    loop
        invariant
            w <= last,
            last + words@.len() == tokens@.len(),
            tv == tokens.deep_view(),
            wv == words.deep_view(),
            wv.len() > 0,
            tv == word_tokens(input@),
            forall|v: int| 0 <= v < w ==> !window_matches(tv, v, wv),
        decreases last - w,
    {
        if window_at(&tokens, w, words) {
            assert(window_matches(word_tokens(input@), w as int, wv));
            assert(words_match(input@, wv));
            return true;
        }
        if w == last {
            assert forall|v: int| !window_matches(tv, v, wv) by {
                if 0 <= v <= w {
                }
            }
            return false;
        }
        w = w + 1;
    }
}

/// Whether a rule's pattern matches the unfolded input.
fn pattern_matches_exec(pattern: &Pattern, input: &[char]) -> (r: bool)
    ensures
        r == pattern_matches(pattern.spec_of(), input@),
{
    match pattern {
        Pattern::Command { program, subcommand, flag_groups } => {
            assert(pattern.spec_of() == PatternSpec::Command {
                program: program@,
                subcommand: match subcommand {
                    Some(s) => Some(s@),
                    None => None,
                },
                flag_groups: flag_groups.deep_view(),
            });
            let segs = segments_of(input);
            let ghost sv = segs.deep_view();
            let mut k: usize = 0;
            while k < segs.len()
                invariant
                    k <= segs@.len(),
                    sv == segs.deep_view(),
                    sv == segments(input@),
                    pattern.spec_of() == (PatternSpec::Command {
                        program: program@,
                        subcommand: match subcommand {
                            Some(s) => Some(s@),
                            None => None,
                        },
                        flag_groups: flag_groups.deep_view(),
                    }),
                    forall|j: int|
                        0 <= j < k ==> !command_matches(
                            #[trigger] sv[j],
                            program@,
                            match subcommand {
                                Some(s) => Some(s@),
                                None => None,
                            },
                            flag_groups.deep_view(),
                        ),
                decreases segs@.len() - k,
            {
                assert(sv[k as int] == segs@[k as int]@);
                if command_matches_exec(&segs[k], program, subcommand, flag_groups) {
                    assert(segments(input@)[k as int] == sv[k as int]);
                    assert(k < segments(input@).len());
                    assert(command_matches(
                        segments(input@)[k as int],
                        program@,
                        match subcommand {
                            Some(s) => Some(s@),
                            None => None,
                        },
                        flag_groups.deep_view(),
                    ));
                    return true;
                }
                k = k + 1;
            }
            false
        },
        Pattern::Words(words) => words_match_exec(input, words),
        Pattern::Contains(needle) => contains_sub(input, needle),
    }
}

/// Whether the tool name suggests shell-command execution.
fn shell_tool(name: &[char]) -> (r: bool)
    ensures
        r == is_shell_tool(name@),
{
    let n = to_lower_ascii(name);
    contains_sub(&n, &lit("bash")) || contains_sub(&n, &lit("shell")) || contains_sub(
        &n,
        &lit("terminal"),
    ) || contains_sub(&n, &lit("exec")) || contains_sub(&n, &lit("command")) || contains_sub(
        &n,
        &lit("cmd"),
    )
}

/// Whether the tool name says SQL.
fn sql_tool(name: &[char]) -> (r: bool)
    ensures
        r == is_sql_tool(name@),
{
    let n = to_lower_ascii(name);
    contains_sub(&n, &lit("sql"))
}

/// Whether a pending tool call is irreversible enough to outrank longer
/// waits in the attention queue. `tool_name` decides which rules apply;
/// `tool_input` is the extracted command/statement string. Anything
/// unmatched — including every unrecognized tool kind — is `false`.
pub fn is_destructive(tool_name: &str, tool_input: &str) -> (r: bool)
    ensures
        r == destructive(tool_name@, tool_input@),
{
    let name = chars_of(tool_name);
    let shell = shell_tool(&name);
    let sql = sql_tool(&name);
    let raw = chars_of(tool_input);
    let unfolded = unfold(&raw);
    let table = rules();
    let mut k: usize = 0;
    while k < table.len()
        invariant
            k <= table@.len(),
            table@.len() == rules_spec().len(),
            forall|j: int|
                0 <= j < table@.len() ==> (#[trigger] table@[j].scope, table@[j].pattern.spec_of())
                    == rules_spec()[j],
            shell == is_shell_tool(tool_name@),
            sql == is_sql_tool(tool_name@),
            unfolded@ == unfold_lines(tool_input@),
            forall|j: int|
                0 <= j < k ==> !(scope_applies(#[trigger] rules_spec()[j].0, shell, sql)
                    && pattern_matches(rules_spec()[j].1, unfolded@)),
        decreases table@.len() - k,
    {
        let rule = &table[k];
        assert((table@[k as int].scope, table@[k as int].pattern.spec_of()) == rules_spec()[k as int]);
        let applies = match rule.scope {
            Scope::Shell => shell,
            Scope::Sql => sql,
            Scope::ShellOrSql => shell || sql,
        };
        if applies && pattern_matches_exec(&rule.pattern, &unfolded) {
            assert(scope_applies(rules_spec()[k as int].0, shell, sql));
            return true;
        }
        k = k + 1;
    }
    false
}

proof fn lemma_unfold_concat(a: Seq<char>, x: Seq<char>)
    requires
        x.len() == 0 || x[0] != '\n',
    ensures
        unfold_lines(a + x) == unfold_lines(a) + unfold_lines(x),
    decreases a.len(),
{
    if a.len() == 0 {
        assert(a + x =~= x);
        assert(unfold_lines(a) =~= Seq::<char>::empty());
        assert(Seq::<char>::empty() + unfold_lines(x) =~= unfold_lines(x));
    } else if a.len() >= 2 && a[0] == '\\' && a[1] == '\n' {
        assert((a + x).skip(2) =~= a.skip(2) + x);
        lemma_unfold_concat(a.skip(2), x);
        assert(unfold_lines(a + x) =~= seq![' '] + unfold_lines(a.skip(2)) + unfold_lines(x));
    } else {
        assert((a + x).skip(1) =~= a.skip(1) + x);
        lemma_unfold_concat(a.skip(1), x);
        if a.len() == 1 {
            assert(a.skip(1) =~= Seq::<char>::empty());
        }
        assert(unfold_lines(a + x) =~= seq![a[0]] + unfold_lines(a.skip(1)) + unfold_lines(x));
    }
}

proof fn lemma_unfold_plain_head(c: char, y: Seq<char>)
    requires
        c != '\\',
    ensures
        unfold_lines(seq![c] + y) == seq![c] + unfold_lines(y),
{
    assert((seq![c] + y).skip(1) =~= y);
}

proof fn lemma_split_ws_trailing_space(a: Seq<char>)
    ensures
        split_ws(a.push(' ')) == split_ws(a),
{
    assert(a.push(' ').drop_last() =~= a);
    assert(is_ws(' '));
}

proof fn lemma_segments_prefix(p: Seq<char>, y: Seq<char>)
    ensures
        segments_acc(p).0.len() <= segments_acc(p + y).0.len(),
        segments_acc(p + y).0.take(segments_acc(p).0.len() as int) == segments_acc(p).0,
    decreases y.len(),
{
    if y.len() == 0 {
        assert(p + y =~= p);
        assert(segments_acc(p).0.take(segments_acc(p).0.len() as int) =~= segments_acc(p).0);
    } else {
        lemma_segments_prefix(p, y.drop_last());
        assert((p + y).drop_last() =~= p + y.drop_last());
        let d0 = segments_acc(p).0;
        let d1 = segments_acc(p + y.drop_last()).0;
        let d2 = segments_acc(p + y).0;
        assert(d2 == d1 || d2 == d1.push(segments_acc(p + y.drop_last()).1));
        if d2 != d1 {
            assert(d2.take(d0.len() as int) =~= d1.take(d0.len() as int));
        }
    }
}

/// The words of `a` and then of `; b`: whitespace tokens of the joined
/// input start with those of `a`.
proof fn lemma_tokens_prefix(a: Seq<char>, b: Seq<char>)
    ensures
        split_ws(a).len() <= split_ws(a + seq![' ', ';', ' '] + b).len(),
        split_ws(a + seq![' ', ';', ' '] + b).take(split_ws(a).len() as int) == split_ws(a),
{
    let big = a + seq![' ', ';', ' '] + b;
    assert(big =~= a.push(' ') + (seq![';', ' '] + b));
    lemma_split_ws_concat(a.push(' '), seq![';', ' '] + b);
    lemma_split_ws_trailing_space(a);
    let t = split_ws(a);
    assert((t + split_ws(seq![';', ' '] + b)).take(t.len() as int) =~= t);
}

/// A match stays a match with another command appended after ` ; `.
proof fn lemma_pattern_survives_append(pattern: PatternSpec, a: Seq<char>, b: Seq<char>)
    requires
        pattern_matches(pattern, a),
    ensures
        pattern_matches(pattern, a + seq![' ', ';', ' '] + b),
{
    let big = a + seq![' ', ';', ' '] + b;
    match pattern {
        PatternSpec::Contains(needle) => {
            let at = choose|at: int| occurs_at(a, needle, at);
            assert(big.subrange(at, at + needle.len()) =~= a.subrange(at, at + needle.len()));
            assert(occurs_at(big, needle, at));
        },
        PatternSpec::Words(words) => {
            lemma_tokens_prefix(a, b);
            let ta = word_tokens(a);
            let tb = word_tokens(big);
            let w = choose|w: int| #[trigger] window_matches(ta, w, words);
            assert forall|j: int| 0 <= j < words.len() implies eq_ignore_case(#[trigger] tb[w + j], words[j]) by {
                assert(split_ws(big)[w + j] == split_ws(a)[w + j]);
                assert(tb[w + j] == ta[w + j]);
            }
            assert(window_matches(tb, w, words));
        },
        PatternSpec::Command { program, subcommand, flag_groups } => {
            let k = choose|k: int|
                0 <= k < segments(a).len() && command_matches(
                    #[trigger] segments(a)[k],
                    program,
                    subcommand,
                    flag_groups,
                );
            let (done, cur) = segments_acc(a);
            let head = a.push(' ').push(';');
            assert(head.drop_last() =~= a.push(' '));
            assert(a.push(' ').drop_last() =~= a);
            assert(segments_acc(a.push(' ')) == (done, cur.push(' ')));
            assert(segments_acc(head) == (done.push(cur.push(' ')), Seq::<char>::empty()));
            assert(big =~= head + (seq![' '] + b));
            lemma_segments_prefix(head, seq![' '] + b);
            let dbig = segments_acc(big).0;
            let pre = done.push(cur.push(' '));
            assert(dbig.take(pre.len() as int) == pre);
            assert(segments(big) == dbig.push(segments_acc(big).1));
            let seg = segments(big)[k];
            if k < done.len() {
                assert(segments(a)[k] == done[k]);
                assert(seg == dbig[k]);
                assert(dbig[k] == pre[k]);
            } else {
                assert(segments(a)[k] == cur);
                assert(seg == dbig[k]);
                assert(dbig[k] == pre[k]);
                lemma_split_ws_trailing_space(cur);
                assert(command_tokens(cur.push(' ')) == command_tokens(cur));
            }
            assert(command_matches(seg, program, subcommand, flag_groups));
            assert(0 <= k < segments(big).len());
        },
    }
}

/// Appending another command after ` ; ` never clears a destructive
/// input: segments are judged one by one, and the rules that apply depend
/// on the tool alone.
pub proof fn lemma_appended_segment_stays_destructive(tool_name: Seq<char>, a: Seq<char>, b: Seq<char>)
    requires
        destructive(tool_name, a),
    ensures
        destructive(tool_name, a + seq![' ', ';', ' '] + b),
{
    let tail = seq![' ', ';', ' '] + b;
    lemma_unfold_concat(a, tail);
    assert(tail =~= seq![' '] + (seq![';'] + (seq![' '] + b)));
    lemma_unfold_plain_head(' ', seq![';'] + (seq![' '] + b));
    lemma_unfold_plain_head(';', seq![' '] + b);
    lemma_unfold_plain_head(' ', b);
    let ua = unfold_lines(a);
    let ub = unfold_lines(b);
    assert(unfold_lines(a + seq![' ', ';', ' '] + b) =~= ua + seq![' ', ';', ' '] + ub) by {
        assert(a + seq![' ', ';', ' '] + b =~= a + tail);
    }
    let shell = is_shell_tool(tool_name);
    let sql = is_sql_tool(tool_name);
    let k = choose|k: int|
        0 <= k < rules_spec().len() && scope_applies(#[trigger] rules_spec()[k].0, shell, sql)
            && pattern_matches(rules_spec()[k].1, unfold_lines(a));
    lemma_pattern_survives_append(rules_spec()[k].1, ua, ub);
}

} // verus!
