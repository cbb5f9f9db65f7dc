//! Every command can be written down, and is read back as it was.
use vstd::prelude::*;
use crate::file::OpenFlag;
use crate::user::calls::Fd;
use crate::user::sh::parse::{
    amp,
    append,
    bar,
    close_paren,
    greater,
    is_word,
    leading_words,
    less,
    open_paren,
    semi,
    ParseError,
    ParseState,
    Tree,
    MAXARGS,
    MAXARGV,
    MAXNODES,
};

verus! {

/// The token for a redirection.
pub open spec fn operator(mode: u64, fd: u64) -> Seq<u8> {
    if fd == Fd::STDIN {
        less()
    } else if mode == 0x601 {
        greater()
    } else {
        append()
    }
}

/// A command with no arguments. It can stand before a redirection only.
pub open spec fn empty(t: Tree) -> bool {
    t matches Tree::Exec(argv) && argv.len() == 0
}

/// A command that can be written down.
pub open spec fn proper(t: Tree) -> bool
    decreases t,
{
    match t {
        Tree::Exec(argv) => 0 < argv.len() <= MAXARGS && forall|i: int|
            0 <= i < argv.len() ==> is_word(#[trigger] argv[i]),
        Tree::Redirect(cmd, _, mode, fd) => (proper(*cmd) || empty(*cmd)) && ((mode == OpenFlag::READ_ONLY && fd
            == Fd::STDIN) || ((mode == 0x601 || mode == 0x201) && fd == Fd::STDOUT)),
        Tree::Pipe(left, right) => proper(*left) && proper(*right),
        Tree::List(left, right) => proper(*left) && proper(*right),
        Tree::Background(cmd) => proper(*cmd),
    }
}

/// How many parts a command has.
pub open spec fn nodes(t: Tree) -> int
    decreases t,
{
    match t {
        Tree::Exec(argv) => 0,
        Tree::Redirect(cmd, _, _, _) => nodes(*cmd) + 1,
        Tree::Pipe(left, right) => nodes(*left) + nodes(*right) + 2,
        Tree::List(left, right) => nodes(*left) + nodes(*right) + 2,
        Tree::Background(cmd) => nodes(*cmd) + 1,
    }
}

/// How many arguments a command has.
pub open spec fn args(t: Tree) -> int
    decreases t,
{
    match t {
        Tree::Exec(argv) => argv.len() as int,
        Tree::Redirect(cmd, _, _, _) => args(*cmd),
        Tree::Pipe(left, right) => args(*left) + args(*right),
        Tree::List(left, right) => args(*left) + args(*right),
        Tree::Background(cmd) => args(*cmd),
    }
}

/// A command as a `line`.
pub open spec fn line_of(t: Tree) -> Seq<Seq<u8>>
    decreases t, 3int,
{
    match t {
        Tree::List(left, right) => back_of(*left) + seq![semi()] + line_of(*right),
        _ => back_of(t),
    }
}

/// A command as a `pipe` with `&` behind it.
pub open spec fn back_of(t: Tree) -> Seq<Seq<u8>>
    decreases t, 2int,
{
    match t {
        Tree::Background(cmd) => back_of(*cmd) + seq![amp()],
        _ => pipe_of(t),
    }
}

/// A command as a `pipe`.
pub open spec fn pipe_of(t: Tree) -> Seq<Seq<u8>>
    decreases t, 1int,
{
    match t {
        Tree::Pipe(left, right) => exec_of(*left) + seq![bar()] + pipe_of(*right),
        _ => exec_of(t),
    }
}

/// A command as an `exec`: in parentheses where it needs them.
pub open spec fn exec_of(t: Tree) -> Seq<Seq<u8>>
    decreases t, 0int,
{
    match t {
        Tree::Exec(argv) => argv,
        Tree::Redirect(cmd, file, mode, fd) => exec_of(*cmd) + seq![operator(mode, fd), file],
        Tree::Pipe(left, right) => seq![open_paren()] + (exec_of(*left) + seq![bar()] + pipe_of(
            *right,
        )) + seq![close_paren()],
        Tree::List(left, right) => seq![open_paren()] + (back_of(*left) + seq![semi()] + line_of(
            *right,
        )) + seq![close_paren()],
        Tree::Background(cmd) => seq![open_paren()] + (back_of(*cmd) + seq![amp()])
            + seq![close_paren()],
    }
}

/// The state after the tokens of `t` are read and `rest` is left.
pub open spec fn past(s: ParseState, t: Tree, rest: Seq<Seq<u8>>) -> ParseState {
    ParseState { rest, nodes: s.nodes + nodes(t), args: s.args + args(t) }
}

/// There is room for `t`.
pub open spec fn fits(s: ParseState, t: Tree) -> bool {
    s.nodes >= 0 && s.args >= 0 && s.nodes + nodes(t) < MAXNODES && s.args + args(t) < MAXARGV
}

/// `rest` does not go on with an argument.
pub open spec fn ends_args(rest: Seq<Seq<u8>>) -> bool {
    rest.len() == 0 || !is_word(rest[0])
}

/// `rest` does not go on with an argument or a redirection.
pub open spec fn ends_exec(rest: Seq<Seq<u8>>) -> bool {
    ends_args(rest) && (rest.len() == 0 || (rest[0] != less() && rest[0] != greater() && rest[0]
        != append()))
}

/// `rest` does not go on with any of these or a pipe.
pub open spec fn ends_pipe(rest: Seq<Seq<u8>>) -> bool {
    ends_exec(rest) && (rest.len() == 0 || rest[0] != bar())
}

/// `rest` does not go on with any of these, a `&` or a `;`.
pub open spec fn ends_line(rest: Seq<Seq<u8>>) -> bool {
    ends_pipe(rest) && (rest.len() == 0 || (rest[0] != amp() && rest[0] != semi()))
}

proof fn lemma_tokens_differ()
    ensures
        !is_word(amp()) && !is_word(semi()) && !is_word(bar()) && !is_word(close_paren()),
        !is_word(less()) && !is_word(greater()) && !is_word(append()) && !is_word(open_paren()),
        bar() != less() && bar() != greater() && bar() != append(),
        amp() != less() && amp() != greater() && amp() != append() && amp() != bar(),
        semi() != less() && semi() != greater() && semi() != append() && semi() != bar() && semi()
            != amp(),
        close_paren() != less() && close_paren() != greater() && close_paren() != append()
            && close_paren() != bar() && close_paren() != amp() && close_paren() != semi(),
        less() != greater() && less() != append() && greater() != append(),
{
    assert(bar()[0] != less()[0] && bar()[0] != greater()[0] && bar()[0] != append()[0]);
    assert(amp()[0] != less()[0] && amp()[0] != greater()[0] && amp()[0] != append()[0] && amp()[0]
        != bar()[0]);
    assert(semi()[0] != less()[0] && semi()[0] != greater()[0] && semi()[0] != append()[0]
        && semi()[0] != bar()[0] && semi()[0] != amp()[0]);
    assert(close_paren()[0] != less()[0] && close_paren()[0] != greater()[0] && close_paren()[0]
        != append()[0] && close_paren()[0] != bar()[0] && close_paren()[0] != amp()[0]
        && close_paren()[0] != semi()[0]);
    assert(less()[0] != greater()[0] && less()[0] != append()[0]);
    assert(greater().len() != append().len());
}

proof fn lemma_counts(t: Tree)
    ensures
        nodes(t) >= 0,
        args(t) >= 0,
    decreases t,
{
    match t {
        Tree::Exec(_) => {},
        Tree::Redirect(cmd, _, _, _) => {
            lemma_counts(*cmd);
        },
        Tree::Pipe(left, right) => {
            lemma_counts(*left);
            lemma_counts(*right);
        },
        Tree::List(left, right) => {
            lemma_counts(*left);
            lemma_counts(*right);
        },
        Tree::Background(cmd) => {
            lemma_counts(*cmd);
        },
    }
}

proof fn lemma_words(argv: Seq<Seq<u8>>, rest: Seq<Seq<u8>>)
    requires
        forall|i: int| 0 <= i < argv.len() ==> is_word(#[trigger] argv[i]),
        ends_args(rest),
    ensures
        leading_words(argv + rest) == argv.len(),
    decreases argv.len(),
{
    if argv.len() == 0 {
        assert(argv + rest =~= rest);
    } else {
        assert((argv + rest)[0] == argv[0]);
        assert((argv + rest).skip(1) =~= argv.skip(1) + rest);
        assert forall|i: int| 0 <= i < argv.skip(1).len() implies is_word(
            #[trigger] argv.skip(1)[i],
        ) by {
            assert(argv.skip(1)[i] == argv[i + 1]);
        }
        lemma_words(argv.skip(1), rest);
    }
}

/// The command is read, and then redirections of it.
proof fn lemma_exec(t: Tree, s: ParseState, rest: Seq<Seq<u8>>)
    requires
        proper(t) || (empty(t) && !ends_exec(rest)),
        s.rest == exec_of(t) + rest,
        fits(s, t),
        ends_args(rest),
    ensures
        s.exec() == past(s, t, rest).redirects(t),
    decreases t, 1int,
{
    lemma_tokens_differ();
    lemma_counts(t);
    match t {
        Tree::Exec(argv) => {
            lemma_words(argv, rest);
            if argv.len() > 0 {
                assert(is_word(argv[0]) && s.rest[0] == argv[0]);
            } else {
                assert(s.rest =~= rest);
                assert(less()[0] != open_paren()[0] && greater()[0] != open_paren()[0]);
                assert(append()[0] != open_paren()[0]);
            }
            assert(s.rest[0] != open_paren());
            assert(s.rest.take(argv.len() as int) =~= argv);
            assert(s.rest.skip(argv.len() as int) =~= rest);
            assert(s.exec() == s.simple());
        },
        Tree::Redirect(cmd, file, mode, fd) => {
            let op = operator(mode, fd);
            let more = seq![op, file] + rest;
            assert(s.rest =~= exec_of(*cmd) + more);
            lemma_counts(*cmd);
            lemma_exec(*cmd, s, more);
            let mid = past(s, *cmd, more);
            assert(mid.rest[0] == op && mid.rest[1] == file);
            assert(mid.redirection() == Some((mode, fd)));
            assert(mid.skip(2).rest =~= rest);
            assert(mid.skip(2).node() == Ok::<ParseState, ParseError>(past(s, t, rest)));
        },
        Tree::Pipe(left, right) => {
            let inner = exec_of(*left) + seq![bar()] + pipe_of(*right);
            let more = seq![close_paren()] + rest;
            assert(s.rest.skip(1) =~= inner + more);
            lemma_pair(t, *left, *right, s.skip(1), more);
            lemma_pipe_line(t, s.skip(1), more);
            let mid = past(s.skip(1), t, more);
            assert(mid.rest[0] == close_paren());
            assert(mid.skip(1).rest =~= rest);
            assert(mid.skip(1) =~= past(s, t, rest));
        },
        Tree::List(left, right) => {
            let inner = back_of(*left) + seq![semi()] + line_of(*right);
            let more = seq![close_paren()] + rest;
            assert(s.rest.skip(1) =~= inner + more);
            lemma_list(t, *left, *right, s.skip(1), more);
            let mid = past(s.skip(1), t, more);
            assert(mid.rest[0] == close_paren());
            assert(mid.skip(1).rest =~= rest);
            assert(mid.skip(1) =~= past(s, t, rest));
        },
        Tree::Background(cmd) => {
            let inner = back_of(*cmd) + seq![amp()];
            let more = seq![close_paren()] + rest;
            assert(s.rest.skip(1) =~= inner + more);
            lemma_amp(t, *cmd, s.skip(1), more);
            let mid = past(s.skip(1), t, more);
            assert(mid.rest[0] == close_paren());
            assert(mid.skip(1).rest =~= rest);
            assert(mid.skip(1) =~= past(s, t, rest));
        },
    }
}

/// What is read of a `pipe`, and the `&` behind it.
pub open spec fn with_back(s: ParseState) -> Result<(Tree, ParseState), ParseError> {
    match s.pipe() {
        Ok((Some(cmd), n)) => n.backgrounds(cmd),
        Ok((None, n)) => Err(ParseError::MissingFile),
        Err(e) => Err(e),
    }
}

/// Two sides of a pipe.
proof fn lemma_pair(t: Tree, left: Tree, right: Tree, s: ParseState, rest: Seq<Seq<u8>>)
    requires
        t == Tree::Pipe(Box::new(left), Box::new(right)),
        proper(t),
        s.rest == exec_of(left) + seq![bar()] + pipe_of(right) + rest,
        fits(s, t),
        ends_pipe(rest),
    ensures
        s.pipe() == Ok::<(Option<Tree>, ParseState), ParseError>((Some(t), past(s, t, rest))),
    decreases t, 0int,
{
    lemma_tokens_differ();
    lemma_counts(left);
    lemma_counts(right);
    let more = seq![bar()] + pipe_of(right) + rest;
    assert(s.rest =~= exec_of(left) + more);
    lemma_exec(left, s, more);
    let mid = past(s, left, more);
    assert(mid.rest[0] == bar());
    assert(mid.redirects(left) == Ok::<(Option<Tree>, ParseState), ParseError>((Some(left), mid)));
    assert(mid.skip(1).rest =~= pipe_of(right) + rest);
    lemma_pipe(right, mid.skip(1), rest);
    let end = past(mid.skip(1), right, rest);
    assert(end.pair() == Ok::<ParseState, ParseError>(past(s, t, rest)));
}

/// A `pipe` is read.
proof fn lemma_pipe(t: Tree, s: ParseState, rest: Seq<Seq<u8>>)
    requires
        proper(t),
        s.rest == pipe_of(t) + rest,
        fits(s, t),
        ends_pipe(rest),
    ensures
        s.pipe() == Ok::<(Option<Tree>, ParseState), ParseError>((Some(t), past(s, t, rest))),
    decreases t, 2int,
{
    lemma_tokens_differ();
    match t {
        Tree::Pipe(left, right) => {
            lemma_pair(t, *left, *right, s, rest);
        },
        _ => {
            lemma_exec(t, s, rest);
            let mid = past(s, t, rest);
            assert(mid.redirects(t) == Ok::<(Option<Tree>, ParseState), ParseError>((Some(t), mid)));
        },
    }
}

/// A pipe where a `line` can stand.
proof fn lemma_pipe_line(t: Tree, s: ParseState, rest: Seq<Seq<u8>>)
    requires
        s.pipe() == Ok::<(Option<Tree>, ParseState), ParseError>((Some(t), past(s, t, rest))),
        ends_line(rest),
    ensures
        s.line() == Ok::<(Option<Tree>, ParseState), ParseError>((Some(t), past(s, t, rest))),
{
}

/// A `pipe` with `&` behind it is read, up to more of them.
proof fn lemma_back(t: Tree, s: ParseState, rest: Seq<Seq<u8>>)
    requires
        proper(t),
        s.rest == back_of(t) + rest,
        fits(s, t),
        ends_pipe(rest),
    ensures
        s.pipe() matches Ok((Some(_), _)),
        with_back(s) == past(s, t, rest).backgrounds(t),
    decreases t, 3int,
{
    lemma_tokens_differ();
    match t {
        Tree::Background(cmd) => {
            lemma_counts(*cmd);
            let more = seq![amp()] + rest;
            assert(s.rest =~= back_of(*cmd) + more);
            lemma_back(*cmd, s, more);
            let mid = past(s, *cmd, more);
            assert(mid.rest[0] == amp());
            assert(mid.skip(1).rest =~= rest);
            assert(mid.skip(1).node() == Ok::<ParseState, ParseError>(past(s, t, rest)));
        },
        _ => {
            lemma_pipe(t, s, rest);
        },
    }
}

/// A command with `&` behind it, where a `line` can stand.
proof fn lemma_amp(t: Tree, cmd: Tree, s: ParseState, rest: Seq<Seq<u8>>)
    requires
        t == Tree::Background(Box::new(cmd)),
        proper(t),
        s.rest == back_of(cmd) + seq![amp()] + rest,
        fits(s, t),
        ends_line(rest),
    ensures
        s.line() == Ok::<(Option<Tree>, ParseState), ParseError>((Some(t), past(s, t, rest))),
    decreases t, 0int,
{
    lemma_tokens_differ();
    lemma_counts(cmd);
    let more = seq![amp()] + rest;
    assert(s.rest =~= back_of(cmd) + more);
    lemma_back(cmd, s, more);
    let mid = past(s, cmd, more);
    assert(mid.rest[0] == amp());
    assert(mid.skip(1).rest =~= rest);
    let end = past(s, t, rest);
    assert(mid.skip(1).node() == Ok::<ParseState, ParseError>(end));
    assert(end.backgrounds(t) == Ok::<(Tree, ParseState), ParseError>((t, end)));
    assert(with_back(s) == Ok::<(Tree, ParseState), ParseError>((t, end)));
}

/// Two commands of a list.
proof fn lemma_list(t: Tree, left: Tree, right: Tree, s: ParseState, rest: Seq<Seq<u8>>)
    requires
        t == Tree::List(Box::new(left), Box::new(right)),
        proper(t),
        s.rest == back_of(left) + seq![semi()] + line_of(right) + rest,
        fits(s, t),
        ends_line(rest),
    ensures
        s.line() == Ok::<(Option<Tree>, ParseState), ParseError>((Some(t), past(s, t, rest))),
    decreases t, 0int,
{
    lemma_tokens_differ();
    lemma_counts(left);
    lemma_counts(right);
    let more = seq![semi()] + line_of(right) + rest;
    assert(s.rest =~= back_of(left) + more);
    lemma_back(left, s, more);
    let mid = past(s, left, more);
    assert(mid.rest[0] == semi());
    assert(mid.backgrounds(left) == Ok::<(Tree, ParseState), ParseError>((left, mid)));
    assert(with_back(s) == Ok::<(Tree, ParseState), ParseError>((left, mid)));
    assert(mid.skip(1).rest =~= line_of(right) + rest);
    lemma_line(right, mid.skip(1), rest);
    let end = past(mid.skip(1), right, rest);
    assert(end.pair() == Ok::<ParseState, ParseError>(past(s, t, rest)));
}

/// A `line` is read.
proof fn lemma_line(t: Tree, s: ParseState, rest: Seq<Seq<u8>>)
    requires
        proper(t),
        s.rest == line_of(t) + rest,
        fits(s, t),
        ends_line(rest),
    ensures
        s.line() == Ok::<(Option<Tree>, ParseState), ParseError>((Some(t), past(s, t, rest))),
    decreases t, 4int,
{
    lemma_tokens_differ();
    match t {
        Tree::List(left, right) => {
            lemma_list(t, *left, *right, s, rest);
        },
        _ => {
            lemma_back(t, s, rest);
            let end = past(s, t, rest);
            assert(end.backgrounds(t) == Ok::<(Tree, ParseState), ParseError>((t, end)));
        },
    }
}

/// A command that is not too large is read back as it was written, whatever it is made of.
pub proof fn law_read_back(t: Tree)
    requires
        proper(t),
        nodes(t) < MAXNODES,
        args(t) < MAXARGV,
    ensures
        ({
            let s = ParseState { rest: line_of(t), nodes: 0, args: 0 };
            s.line() == Ok::<(Option<Tree>, ParseState), ParseError>(
                (Some(t), ParseState { rest: seq![], nodes: nodes(t), args: args(t) }),
            )
        }),
{
    let s = ParseState { rest: line_of(t), nodes: 0, args: 0 };
    assert(s.rest =~= line_of(t) + seq![]);
    lemma_line(t, s, seq![]);
}

} // verus!
