//! The language of the shell.
//!
//! ```text
//! line     = pipe ( '&' )* ( ';' line )?
//! pipe     = exec ( '|' pipe )?
//! exec     = ( '(' line ')' | arg* ) redirs
//! redirs   = ( ( '<' | '>' | '>>' ) filename )*
//! ```
use vstd::prelude::*;
use crate::file::OpenFlag;
use crate::user::calls::Fd;
use crate::user::sh::split::law_no_more_tokens;
use crate::user::text::{space_at, space_len};

verus! {

/// The largest number of arguments of one command
pub const MAXARGS: usize = 16;

/// The number of parts at which a line is too long
pub const MAXNODES: usize = 16;

/// The number of arguments in a line at which it is too long
pub const MAXARGV: usize = 32;

/// Whether a byte is a token by itself, or starts one.
pub open spec fn special(b: u8) -> bool {
    b == 0x7c || b == 0x28 || b == 0x29 || b == 0x3b || b == 0x26 || b == 0x3c || b == 0x3e
}

/// Where the white space that starts at `i` ends.
pub open spec fn skip_space(s: Seq<u8>, i: int) -> int
    decreases s.len() - i,
{
    if 0 <= i < s.len() && space_len(s.skip(i)) > 0 {
        skip_space(s, i + space_len(s.skip(i)))
    } else {
        i
    }
}

/// Where the word ends that goes on at `i`.
pub open spec fn word_end(s: Seq<u8>, i: int) -> int
    decreases s.len() - i,
{
    if 0 <= i < s.len() && space_len(s.skip(i)) == 0 && !special(s[i]) {
        word_end(s, i + 1)
    } else {
        i
    }
}

/// Where the token ends that starts at `i`.
pub open spec fn token_end(s: Seq<u8>, i: int) -> int {
    if s[i] == 0x3e && i + 1 < s.len() && s[i + 1] == 0x3e {
        i + 2
    } else if special(s[i]) {
        i + 1
    } else {
        word_end(s, i + 1)
    }
}

/// The tokens of a line from `i` on.
pub open spec fn tokens(s: Seq<u8>, i: int) -> Seq<Seq<u8>>
    decreases s.len() - i,
    when 0 <= i <= s.len()
    via tokens_decreases
{
    let start = skip_space(s, i);
    if start >= s.len() {
        seq![]
    } else {
        let end = token_end(s, start);
        seq![s.subrange(start, end)] + tokens(s, end)
    }
}

#[via_fn]
proof fn tokens_decreases(s: Seq<u8>, i: int) {
    lemma_skip_space(s, i);
    let start = skip_space(s, i);
    if start < s.len() {
        lemma_word_end(s, start + 1);
    }
}

pub proof fn lemma_skip_space(s: Seq<u8>, i: int)
    requires
        0 <= i <= s.len(),
    ensures
        i <= skip_space(s, i) <= s.len(),
        skip_space(s, i) < s.len() ==> space_len(s.skip(skip_space(s, i))) == 0,
    decreases s.len() - i,
{
    if i < s.len() && space_len(s.skip(i)) > 0 {
        lemma_skip_space(s, i + space_len(s.skip(i)));
    }
}

pub proof fn lemma_word_end(s: Seq<u8>, i: int)
    requires
        0 <= i <= s.len(),
    ensures
        i <= word_end(s, i) <= s.len(),
    decreases s.len() - i,
{
    if i < s.len() && space_len(s.skip(i)) == 0 && !special(s[i]) {
        lemma_word_end(s, i + 1);
    }
}

/// Whether a byte is a token by itself, or starts one.
fn is_special(b: u8) -> (r: bool)
    ensures
        r == special(b),
{
    b == 0x7c || b == 0x28 || b == 0x29 || b == 0x3b || b == 0x26 || b == 0x3c || b == 0x3e
}

/// Splits a line into tokens.
#[derive(Debug)]
pub struct Tokenizer<'a> {
    input: &'a [u8],
    cursor: usize,
}

impl<'a> Tokenizer<'a> {
    pub closed spec fn input(&self) -> Seq<u8> {
        self.input@
    }

    /// Where the next token is looked for.
    pub closed spec fn cursor(&self) -> int {
        self.cursor as int
    }

    pub open spec fn wf(&self) -> bool {
        0 <= self.cursor() <= self.input().len()
    }

    pub fn new(input: &'a [u8]) -> (r: Self)
        ensures
            r.wf(),
            r.input() == input@,
            r.cursor() == 0,
    {
        Tokenizer { input, cursor: 0 }
    }

    /// The next token of the line.
    pub fn next_token(&mut self) -> (r: Option<Vec<u8>>)
        requires
            old(self).wf(),
        ensures
            final(self).wf(),
            final(self).input() == old(self).input(),
            match r {
                Some(t) => tokens(old(self).input(), old(self).cursor()) == seq![t@] + tokens(
                    old(self).input(),
                    final(self).cursor(),
                ) && final(self).cursor() > old(self).cursor(),
                None => tokens(old(self).input(), old(self).cursor()).len() == 0 && final(
                    self).cursor() == final(self).input().len(),
            },
    {
        let s = self.input;
        let total = s.len();
        let mut i = self.cursor;
        let mut n = space_at(s, i);
        while n > 0
            invariant
                i <= s@.len(),
                total == s@.len(),
                n == (if i < s@.len() {
                    space_len(s@.skip(i as int))
                } else {
                    0
                }),
                n <= s@.len() - i,
                skip_space(s@, self.cursor as int) == skip_space(s@, i as int),
                self.cursor <= i,
            decreases s@.len() - i,
        {
            i += n;
            n = space_at(s, i);
        }
        let start = i;
        proof {
            lemma_skip_space(s@, self.cursor as int);
        }
        if start >= s.len() {
            self.cursor = start;
            return None;
        }
        i += 1;
        if s[start] == 0x3e {
            // double-char token ">>"
            if i < s.len() && s[i] == 0x3e {
                i += 1;
            }
        } else if !is_special(s[start]) {
            // read until next whitespace or special char
            while i < s.len() && space_at(s, i) == 0 && !is_special(s[i])
                invariant
                    start < i <= s@.len(),
                    word_end(s@, start + 1) == word_end(s@, i as int),
                decreases s@.len() - i,
            {
                i += 1;
            }
        }
        assert(i == token_end(s@, start as int));
        let mut token: Vec<u8> = Vec::new();
        token.extend_from_slice(vstd::slice::slice_subrange(s, start, i));
        assert(token@ =~= s@.subrange(start as int, i as int));
        self.cursor = i;
        Some(token)
    }
}

/// What stands on a line.
pub enum Tree {
    Exec(Seq<Seq<u8>>),
    Redirect(Box<Tree>, Seq<u8>, u64, u64),
    Pipe(Box<Tree>, Box<Tree>),
    List(Box<Tree>, Box<Tree>),
    Background(Box<Tree>),
}

/// What stands on a line.
#[derive(Debug)]
pub enum CommandType {
    /// A single command with arguments, e.g. `ls -l`
    Exec { argv: Vec<Vec<u8>> },
    /// A command with redirection, e.g. `ls > out.txt`
    Redirect { cmd: Box<CommandType>, file: Vec<u8>, mode: u64, fd: u64 },
    /// Two commands connected by a pipe, e.g. `ls | grep foo`
    Pipe { left: Box<CommandType>, right: Box<CommandType> },
    /// Two commands separated by `;`, e.g. `ls; echo done`
    List { left: Box<CommandType>, right: Box<CommandType> },
    /// A command followed by `&`, e.g. `sleep 10 &`
    Background { cmd: Box<CommandType> },
}

/// The bytes of each.
pub open spec fn texts(v: Seq<Vec<u8>>) -> Seq<Seq<u8>> {
    v.map_values(|t: Vec<u8>| t@)
}

impl CommandType {
    pub open spec fn tree(self) -> Tree
        decreases self,
    {
        match self {
            CommandType::Exec { argv } => Tree::Exec(texts(argv@)),
            CommandType::Redirect { cmd, file, mode, fd } => Tree::Redirect(
                Box::new(cmd.tree()),
                file@,
                mode,
                fd,
            ),
            CommandType::Pipe { left, right } => Tree::Pipe(
                Box::new(left.tree()),
                Box::new(right.tree()),
            ),
            CommandType::List { left, right } => Tree::List(
                Box::new(left.tree()),
                Box::new(right.tree()),
            ),
            CommandType::Background { cmd } => Tree::Background(Box::new(cmd.tree())),
        }
    }
}

/// The tree of a command, if there is one.
pub open spec fn tree_of(c: Option<CommandType>) -> Option<Tree> {
    match c {
        Some(c) => Some(c.tree()),
        None => None,
    }
}

/// Why a line cannot be read.
#[derive(Debug, Clone, Copy, PartialEq, Eq, Structural)]
pub enum ParseError {
    /// The line has too many parts.
    ArenaOverflow,
    /// The line has too many arguments.
    ArgvOverflow,
    /// A command has too many arguments.
    TooManyArgs,
    /// A parenthesis is not closed.
    ExpectedParen,
    /// There is no file behind a redirection.
    MissingFile,
}

/// What is left of the tokens of a line, and how many parts and arguments it has so far.
#[verifier::ext_equal]
pub struct ParseState {
    pub rest: Seq<Seq<u8>>,
    pub nodes: int,
    pub args: int,
}

/// What comes of reading a part of a line. There may be nothing to read.
pub type Parsed = Result<(Option<Tree>, ParseState), ParseError>;

pub open spec fn amp() -> Seq<u8> {
    seq![0x26]
}

pub open spec fn semi() -> Seq<u8> {
    seq![0x3b]
}

pub open spec fn bar() -> Seq<u8> {
    seq![0x7c]
}

pub open spec fn open_paren() -> Seq<u8> {
    seq![0x28]
}

pub open spec fn close_paren() -> Seq<u8> {
    seq![0x29]
}

pub open spec fn less() -> Seq<u8> {
    seq![0x3c]
}

pub open spec fn greater() -> Seq<u8> {
    seq![0x3e]
}

pub open spec fn append() -> Seq<u8> {
    seq![0x3e, 0x3e]
}

/// Whether a token is a word: it does not start with a special byte.
pub open spec fn is_word(t: Seq<u8>) -> bool {
    t.len() > 0 && !special(t[0])
}

/// How many words there are before the first token that is none.
pub open spec fn leading_words(rest: Seq<Seq<u8>>) -> int
    decreases rest.len(),
{
    if rest.len() > 0 && is_word(rest[0]) {
        1 + leading_words(rest.skip(1))
    } else {
        0
    }
}

impl ParseState {
    pub open spec fn at(self, token: Seq<u8>) -> bool {
        self.rest.len() > 0 && self.rest[0] == token
    }

    pub open spec fn skip(self, n: int) -> ParseState {
        ParseState { rest: self.rest.skip(n), ..self }
    }

    /// One more part, if there is room for it.
    pub open spec fn node(self) -> Result<ParseState, ParseError> {
        if self.nodes + 1 >= MAXNODES {
            Err(ParseError::ArenaOverflow)
        } else {
            Ok(ParseState { nodes: self.nodes + 1, ..self })
        }
    }

    /// Two more parts, if there is room for them.
    pub open spec fn pair(self) -> Result<ParseState, ParseError> {
        match self.node() {
            Ok(s) => s.node(),
            Err(e) => Err(e),
        }
    }

    /// How the file behind a redirection is opened, and as which descriptor.
    pub open spec fn redirection(self) -> Option<(u64, u64)> {
        if self.at(less()) {
            Some((OpenFlag::READ_ONLY, Fd::STDIN))
        } else if self.at(greater()) {
            Some((0x601, Fd::STDOUT))
        } else if self.at(append()) {
            Some((0x201, Fd::STDOUT))
        } else {
            None
        }
    }

    /// `redirs` behind `cmd`.
    pub open spec fn redirects(self, cmd: Tree) -> Parsed
        decreases self.rest.len(),
    {
        match self.redirection() {
            None => Ok((Some(cmd), self)),
            Some((mode, fd)) => if self.rest.len() < 2 {
                Err(ParseError::MissingFile)
            } else {
                match self.skip(2).node() {
                    Err(e) => Err(e),
                    Ok(s) => s.redirects(Tree::Redirect(Box::new(cmd), self.rest[1], mode, fd)),
                }
            },
        }
    }

    /// `arg* redirs`. There is something to read if there is an argument or a redirection.
    pub open spec fn simple(self) -> Parsed {
        let n = leading_words(self.rest);
        if n > MAXARGS {
            Err(ParseError::TooManyArgs)
        } else if n == 0 && self.redirection() is None {
            Ok((None, self))
        } else if self.args + n >= MAXARGV {
            Err(ParseError::ArgvOverflow)
        } else {
            ParseState { args: self.args + n, ..self.skip(n) }.redirects(
                Tree::Exec(self.rest.take(n)),
            )
        }
    }

    /// `exec`
    pub open spec fn exec(self) -> Parsed
        decreases self.rest.len(), 0int,
    {
        if self.at(open_paren()) {
            match self.skip(1).line() {
                Err(e) => Err(e),
                Ok((None, s)) => Ok((None, s)),
                Ok((Some(cmd), s)) => if s.at(close_paren()) {
                    s.skip(1).redirects(cmd)
                } else {
                    Err(ParseError::ExpectedParen)
                },
            }
        } else {
            self.simple()
        }
    }

    /// `pipe`
    pub open spec fn pipe(self) -> Parsed
        decreases self.rest.len(), 1int,
    {
        match self.exec() {
            Ok((Some(left), s)) => if s.at(bar()) && s.rest.len() <= self.rest.len() {
                match s.skip(1).pipe() {
                    Ok((Some(right), s)) => match s.pair() {
                        Ok(s) => Ok((Some(Tree::Pipe(Box::new(left), Box::new(right))), s)),
                        Err(e) => Err(e),
                    },
                    r => r,
                }
            } else {
                Ok((Some(left), s))
            },
            r => r,
        }
    }

    /// `( '&' )*` behind `cmd`.
    pub open spec fn backgrounds(self, cmd: Tree) -> Result<(Tree, ParseState), ParseError>
        decreases self.rest.len(),
    {
        if self.at(amp()) {
            match self.skip(1).node() {
                Ok(s) => s.backgrounds(Tree::Background(Box::new(cmd))),
                Err(e) => Err(e),
            }
        } else {
            Ok((cmd, self))
        }
    }

    /// `line`
    pub open spec fn line(self) -> Parsed
        decreases self.rest.len(), 2int,
    {
        match self.pipe() {
            Ok((Some(cmd), s)) => match s.backgrounds(cmd) {
                Err(e) => Err(e),
                Ok((left, s)) => if s.at(semi()) && s.rest.len() <= self.rest.len() {
                    match s.skip(1).line() {
                        Err(e) => Err(e),
                        Ok((None, s)) => Ok((Some(left), s)),
                        Ok((Some(right), s)) => match s.pair() {
                            Ok(s) => Ok((Some(Tree::List(Box::new(left), Box::new(right))), s)),
                            Err(e) => Err(e),
                        },
                    }
                } else {
                    Ok((Some(left), s))
                },
            },
            r => r,
        }
    }
}

/// What a line says.
pub open spec fn meaning(s: Seq<u8>) -> Result<Option<Tree>, ParseError> {
    match (ParseState { rest: tokens(s, 0), nodes: 0, args: 0 }).line() {
        Ok((t, _)) => Ok(t),
        Err(e) => Err(e),
    }
}

/// Reads a line.
#[derive(Debug)]
pub struct Parser {
    tokens: Vec<Vec<u8>>,
    pos: usize,
    nodes: usize,
    args: usize,
}

impl View for Parser {
    type V = ParseState;

    closed spec fn view(&self) -> ParseState {
        ParseState {
            rest: texts(self.tokens@).skip(self.pos as int),
            nodes: self.nodes as int,
            args: self.args as int,
        }
    }
}

impl Parser {
    pub closed spec fn wf(&self) -> bool {
        self.pos <= self.tokens@.len() && self.nodes < MAXNODES && self.args < MAXARGV
    }

    pub fn new(input: &[u8]) -> (r: Self)
        ensures
            r.wf(),
            r@ == (ParseState { rest: tokens(input@, 0), nodes: 0, args: 0 }),
    {
        let mut tokenizer = Tokenizer::new(input);
        let mut list: Vec<Vec<u8>> = Vec::new();
        let mut more = true;
        assert(texts(list@) + tokens(input@, 0) =~= tokens(input@, 0));
        while more
            invariant
                tokenizer.wf(),
                tokenizer.input() == input@,
                tokens(input@, 0) == texts(list@) + tokens(input@, tokenizer.cursor()),
                !more ==> tokens(input@, tokenizer.cursor()).len() == 0,
            decreases input@.len() - tokenizer.cursor(), more as int,
        {
            let ghost list0 = list@;
            let ghost from = tokenizer.cursor();
            match tokenizer.next_token() {
                Some(t) => {
                    list.push(t);
                    assert(texts(list@) =~= texts(list0).push(t@));
                    assert(texts(list@) + tokens(input@, tokenizer.cursor()) =~= texts(list0) + (
                    seq![t@] + tokens(input@, tokenizer.cursor())));
                },
                None => {
                    more = false;
                    assert(tokenizer.cursor() == input@.len());
                    proof {
                        law_no_more_tokens(input@);
                    }
                    assert(tokens(input@, from) =~= tokens(input@, tokenizer.cursor()));
                },
            }
        }
        let r = Parser { tokens: list, pos: 0, nodes: 0, args: 0 };
        assert(r@.rest =~= tokens(input@, 0));
        r
    }

    /// Whether `a` is the next token.
    fn at(&self, a: u8) -> (r: bool)
        requires
            self.wf(),
        ensures
            r == self@.at(seq![a]),
    {
        if self.pos < self.tokens.len() {
            let t = &self.tokens[self.pos];
            assert(self@.rest[0] == t@);
            let r = t.len() == 1 && t[0] == a;
            assert(r == (t@ =~= seq![a]));
            r
        } else {
            false
        }
    }

    /// Whether `>>` is the next token.
    fn at_append(&self) -> (r: bool)
        requires
            self.wf(),
        ensures
            r == self@.at(append()),
    {
        if self.pos < self.tokens.len() {
            let t = &self.tokens[self.pos];
            assert(self@.rest[0] == t@);
            let r = t.len() == 2 && t[0] == 0x3e && t[1] == 0x3e;
            assert(r == (t@ =~= append()));
            r
        } else {
            false
        }
    }

    /// Whether a word is the next token.
    fn at_word(&self) -> (r: bool)
        requires
            self.wf(),
        ensures
            r == (self@.rest.len() > 0 && is_word(self@.rest[0])),
    {
        if self.pos < self.tokens.len() {
            let t = &self.tokens[self.pos];
            assert(self@.rest[0] == t@);
            t.len() > 0 && !is_special(t[0])
        } else {
            false
        }
    }

    /// Takes the next token.
    fn next_token(&mut self) -> (r: Vec<u8>)
        requires
            old(self).wf(),
            old(self)@.rest.len() > 0,
        ensures
            final(self).wf(),
            final(self)@ == old(self)@.skip(1),
            r@ == old(self)@.rest[0],
    {
        let mut r: Vec<u8> = Vec::new();
        r.extend_from_slice(self.tokens[self.pos].as_slice());
        assert(r@ =~= self@.rest[0]);
        assert(self.tokens.len() == self.tokens@.len());
        self.pos = self.pos + 1;
        assert(self@ =~= old(self)@.skip(1));
        r
    }

    /// Counts one more part.
    fn alloc_cmd(&mut self) -> (r: Result<(), ParseError>)
        requires
            old(self).wf(),
        ensures
            match r {
                Ok(_) => old(self)@.node() == Ok::<ParseState, ParseError>(final(self)@) && final(
                    self).wf(),
                Err(e) => old(self)@.node() == Err::<ParseState, ParseError>(e),
            },
    {
        if self.nodes + 1 >= MAXNODES {
            return Err(ParseError::ArenaOverflow);
        }
        self.nodes = self.nodes + 1;
        Ok(())
    }

    /// Counts two more parts.
    fn alloc_pair(&mut self) -> (r: Result<(), ParseError>)
        requires
            old(self).wf(),
        ensures
            match r {
                Ok(_) => old(self)@.pair() == Ok::<ParseState, ParseError>(final(self)@) && final(
                    self).wf(),
                Err(e) => old(self)@.pair() == Err::<ParseState, ParseError>(e),
            },
    {
        match self.alloc_cmd() {
            Ok(_) => self.alloc_cmd(),
            Err(e) => Err(e),
        }
    }

    /// `redirs` behind `cmd`.
    fn parse_redirects(&mut self, cmd: CommandType) -> (r: Result<CommandType, ParseError>)
        requires
            old(self).wf(),
        ensures
            match r {
                Ok(c) => {
                    &&& old(self)@.redirects(cmd.tree()) == Ok::<
                        (Option<Tree>, ParseState),
                        ParseError,
                    >((Some(c.tree()), final(self)@))
                    &&& final(self).wf()
                    &&& final(self)@.rest.len() <= old(self)@.rest.len()
                },
                Err(e) => old(self)@.redirects(cmd.tree()) == Err::<
                    (Option<Tree>, ParseState),
                    ParseError,
                >(e),
            },
        decreases old(self)@.rest.len(),
    {
        let mode: u64;
        let fd: u64;
        if self.at(0x3c) {
            mode = OpenFlag::READ_ONLY;
            fd = Fd::STDIN;
        } else if self.at(0x3e) {
            mode = OpenFlag::WRITE_ONLY | OpenFlag::CREATE | OpenFlag::TRUNCATE;
            assert(0x001u64 | 0x200 | 0x400 == 0x601) by (bit_vector);
            fd = Fd::STDOUT;
        } else if self.at_append() {
            mode = OpenFlag::WRITE_ONLY | OpenFlag::CREATE;
            assert(0x001u64 | 0x200 == 0x201) by (bit_vector);
            fd = Fd::STDOUT;
        } else {
            return Ok(cmd);
        }
        assert(self@.redirection() == Some((mode, fd)));
        let ghost s0 = self@;
        self.next_token();
        if self.pos >= self.tokens.len() {
            return Err(ParseError::MissingFile);
        }
        let file = self.next_token();
        assert(self@ =~= s0.skip(2));
        let ghost tree = Tree::Redirect(Box::new(cmd.tree()), file@, mode, fd);
        match self.alloc_cmd() {
            Ok(_) => {
                let outer = CommandType::Redirect { cmd: Box::new(cmd), file, mode, fd };
                assert(outer.tree() == tree);
                self.parse_redirects(outer)
            },
            Err(e) => Err(e),
        }
    }

    /// `arg* redirs`
    fn parse_simple(&mut self) -> (r: Result<Option<CommandType>, ParseError>)
        requires
            old(self).wf(),
        ensures
            match r {
                Ok(c) => {
                    &&& old(self)@.simple() == Ok::<(Option<Tree>, ParseState), ParseError>(
                        (tree_of(c), final(self)@),
                    )
                    &&& final(self).wf()
                    &&& final(self)@.rest.len() <= old(self)@.rest.len()
                },
                Err(e) => old(self)@.simple() == Err::<(Option<Tree>, ParseState), ParseError>(e),
            },
    {
        let ghost s0 = self@;
        let mut argv: Vec<Vec<u8>> = Vec::new();
        assert(texts(argv@) =~= s0.rest.take(0));
        assert(s0.skip(0) =~= s0);
        while self.at_word()
            invariant
                self.wf(),
                argv@.len() <= MAXARGS,
                argv@.len() <= s0.rest.len(),
                self@ == s0.skip(argv@.len() as int),
                texts(argv@) == s0.rest.take(argv@.len() as int),
                leading_words(s0.rest) == argv@.len() + leading_words(self@.rest),
                s0 == old(self)@,
            decreases self@.rest.len(),
        {
            proof {
                lemma_leading_words(self@.rest.skip(1));
            }
            if argv.len() >= MAXARGS {
                return Err(ParseError::TooManyArgs);
            }
            let ghost argv0 = argv@;
            let t = self.next_token();
            argv.push(t);
            assert(self@ =~= s0.skip(argv@.len() as int));
            assert(texts(argv@) =~= texts(argv0).push(t@));
            assert(texts(argv@) =~= s0.rest.take(argv@.len() as int));
        }
        assert(leading_words(self@.rest) == 0);
        if argv.len() == 0 && !self.at(0x3c) && !self.at(0x3e) && !self.at_append() {
            assert(self@ =~= s0);
            return Ok(None);
        }
        if self.args + argv.len() >= MAXARGV {
            return Err(ParseError::ArgvOverflow);
        }
        self.args = self.args + argv.len();
        let cmd = CommandType::Exec { argv };
        match self.parse_redirects(cmd) {
            Ok(c) => Ok(Some(c)),
            Err(e) => Err(e),
        }
    }

    fn parse_exec(&mut self) -> (r: Result<Option<CommandType>, ParseError>)
        requires
            old(self).wf(),
        ensures
            match r {
                Ok(c) => {
                    &&& old(self)@.exec() == Ok::<(Option<Tree>, ParseState), ParseError>(
                        (tree_of(c), final(self)@),
                    )
                    &&& final(self).wf()
                    &&& final(self)@.rest.len() <= old(self)@.rest.len()
                },
                Err(e) => old(self)@.exec() == Err::<(Option<Tree>, ParseState), ParseError>(e),
            },
        decreases old(self)@.rest.len(), 0nat,
    {
        // handle sub-shell
        if self.at(0x28) {
            self.next_token();
            return match self.parse_line() {
                Err(e) => Err(e),
                Ok(None) => Ok(None),
                Ok(Some(cmd)) => {
                    if !self.at(0x29) {
                        return Err(ParseError::ExpectedParen);
                    }
                    self.next_token();
                    match self.parse_redirects(cmd) {
                        Ok(c) => Ok(Some(c)),
                        Err(e) => Err(e),
                    }
                },
            };
        }
        self.parse_simple()
    }

    fn parse_pipe(&mut self) -> (r: Result<Option<CommandType>, ParseError>)
        requires
            old(self).wf(),
        ensures
            match r {
                Ok(c) => {
                    &&& old(self)@.pipe() == Ok::<(Option<Tree>, ParseState), ParseError>(
                        (tree_of(c), final(self)@),
                    )
                    &&& final(self).wf()
                    &&& final(self)@.rest.len() <= old(self)@.rest.len()
                },
                Err(e) => old(self)@.pipe() == Err::<(Option<Tree>, ParseState), ParseError>(e),
            },
        decreases old(self)@.rest.len(), 1nat,
    {
        let left = match self.parse_exec() {
            Ok(Some(c)) => c,
            r => {
                return r;
            },
        };
        if !self.at(0x7c) {
            return Ok(Some(left));
        }
        self.next_token();
        let right = match self.parse_pipe() {
            Ok(Some(c)) => c,
            r => {
                return r;
            },
        };
        match self.alloc_pair() {
            Ok(_) => Ok(Some(CommandType::Pipe { left: Box::new(left), right: Box::new(right) })),
            Err(e) => Err(e),
        }
    }

    /// `( '&' )*` behind `cmd`.
    fn parse_background(&mut self, cmd: CommandType) -> (r: Result<CommandType, ParseError>)
        requires
            old(self).wf(),
        ensures
            match r {
                Ok(c) => {
                    &&& old(self)@.backgrounds(cmd.tree()) == Ok::<(Tree, ParseState), ParseError>(
                        (c.tree(), final(self)@),
                    )
                    &&& final(self).wf()
                    &&& final(self)@.rest.len() <= old(self)@.rest.len()
                },
                Err(e) => old(self)@.backgrounds(cmd.tree()) == Err::<
                    (Tree, ParseState),
                    ParseError,
                >(e),
            },
        decreases old(self)@.rest.len(),
    {
        if !self.at(0x26) {
            return Ok(cmd);
        }
        self.next_token();
        let ghost tree = Tree::Background(Box::new(cmd.tree()));
        match self.alloc_cmd() {
            Ok(_) => {
                let outer = CommandType::Background { cmd: Box::new(cmd) };
                assert(outer.tree() == tree);
                self.parse_background(outer)
            },
            Err(e) => Err(e),
        }
    }

    fn parse_line(&mut self) -> (r: Result<Option<CommandType>, ParseError>)
        requires
            old(self).wf(),
        ensures
            match r {
                Ok(c) => {
                    &&& old(self)@.line() == Ok::<(Option<Tree>, ParseState), ParseError>(
                        (tree_of(c), final(self)@),
                    )
                    &&& final(self).wf()
                    &&& final(self)@.rest.len() <= old(self)@.rest.len()
                },
                Err(e) => old(self)@.line() == Err::<(Option<Tree>, ParseState), ParseError>(e),
            },
        decreases old(self)@.rest.len(), 2nat,
    {
        let cmd = match self.parse_pipe() {
            Ok(Some(c)) => c,
            r => {
                return r;
            },
        };
        let left = match self.parse_background(cmd) {
            Ok(c) => c,
            Err(e) => {
                return Err(e);
            },
        };
        if !self.at(0x3b) {
            return Ok(Some(left));
        }
        self.next_token();
        let right = match self.parse_line() {
            Ok(Some(c)) => c,
            Ok(None) => {
                return Ok(Some(left));
            },
            Err(e) => {
                return Err(e);
            },
        };
        match self.alloc_pair() {
            Ok(_) => Ok(Some(CommandType::List { left: Box::new(left), right: Box::new(right) })),
            Err(e) => Err(e),
        }
    }

    /// Reads the line. There may be nothing on it.
    pub fn parse(&mut self) -> (r: Result<Option<CommandType>, ParseError>)
        requires
            old(self).wf(),
        ensures
            match r {
                Ok(c) => {
                    &&& old(self)@.line() == Ok::<(Option<Tree>, ParseState), ParseError>(
                        (tree_of(c), final(self)@),
                    )
                    &&& final(self).wf()
                },
                Err(e) => old(self)@.line() == Err::<(Option<Tree>, ParseState), ParseError>(e),
            },
    {
        self.parse_line()
    }
}

pub proof fn lemma_leading_words(rest: Seq<Seq<u8>>)
    ensures
        0 <= leading_words(rest) <= rest.len(),
    decreases rest.len(),
{
    if rest.len() > 0 && is_word(rest[0]) {
        lemma_leading_words(rest.skip(1));
    }
}

/// What a line says.
pub fn parse(input: &[u8]) -> (r: Result<Option<CommandType>, ParseError>)
    ensures
        match r {
            Ok(c) => meaning(input@) == Ok::<Option<Tree>, ParseError>(tree_of(c)),
            Err(e) => meaning(input@) == Err::<Option<Tree>, ParseError>(e),
        },
{
    let mut parser = Parser::new(input);
    parser.parse()
}

} // verus!
