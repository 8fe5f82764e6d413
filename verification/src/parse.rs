//! Grouping tokens into the stages of a pipeline.

use vstd::prelude::*;
use crate::lex;
use crate::lex::{lemma_scan_shrinks, tokens, Lexer, Tok, Token};

verus! {

/// Why a line could not be grouped into stages.
#[derive(Eq, PartialEq, Copy, Clone, Debug)]
pub enum Error {
    /// The line could not be cut into tokens.
    LexError(lex::Error),
}

impl Error {
    /// A short description of the error: that of the lexer's error.
    pub fn description(&self) -> (text: &'static str)
        ensures
            text@ == "Quoted string left unclosed."@,
    {
        match self {
            Error::LexError(error) => error.description(),
        }
    }

    /// The error as a message for the user.
    pub fn to_string(&self) -> (text: String)
        ensures
            text@ == "Quoted string left unclosed."@,
    {
        String::from_str(self.description())
    }
}

impl From<lex::Error> for Error {
    fn from(error: lex::Error) -> (wrapped: Error) {
        Error::LexError(error)
    }
}

impl vstd::std_specs::convert::FromSpecImpl<lex::Error> for Error {
    open spec fn obeys_from_spec() -> bool {
        true
    }

    open spec fn from_spec(error: lex::Error) -> Error {
        Error::LexError(error)
    }
}

/// One stage of a pipeline: the name of a command and its arguments.
#[derive(Eq, PartialEq, Clone, Debug)]
pub struct Cmd<'a>(pub Vec<&'a str>);

impl<'a> View for Cmd<'a> {
    type V = Seq<Seq<char>>;

    open spec fn view(&self) -> Seq<Seq<char>> {
        self.0.deep_view()
    }
}

impl<'a> DeepView for Cmd<'a> {
    type V = Seq<Seq<char>>;

    open spec fn deep_view(&self) -> Seq<Seq<char>> {
        self.0.deep_view()
    }
}

impl<'a> Cmd<'a> {
    /// A stage without words.
    pub fn new() -> (cmd: Cmd<'a>)
        ensures
            cmd@ == Seq::<Seq<char>>::empty(),
    {
        let cmd = Cmd(Vec::new());
        assert(cmd@ =~= Seq::<Seq<char>>::empty());
        cmd
    }
}

/// The stages that `tokens` spell out: a word joins the last stage, a separator
/// closes it and opens an empty one. There is always at least one stage.
pub open spec fn split(tokens: Seq<Token>) -> Seq<Seq<Seq<char>>>
    decreases tokens.len(),
{
    if tokens.len() == 0 {
        seq![Seq::empty()]
    } else {
        let before = split(tokens.drop_last());
        match tokens.last() {
            Token::Separator => before.push(Seq::empty()),
            Token::Word(text) => before.drop_last().push(before.last().push(text)),
        }
    }
}

/// How many of `tokens` are separators.
pub open spec fn separators(tokens: Seq<Token>) -> nat
    decreases tokens.len(),
{
    if tokens.len() == 0 {
        0
    } else {
        separators(tokens.drop_last()) + if tokens.last() is Separator {
            1nat
        } else {
            0nat
        }
    }
}

/// A sequence of tokens with `k` separators splits into `k + 1` stages, so two
/// separators in a row leave an empty stage between them.
pub proof fn lemma_split_len(tokens: Seq<Token>)
    ensures
        split(tokens).len() == separators(tokens) + 1,
    decreases tokens.len(),
{
    if tokens.len() > 0 {
        lemma_split_len(tokens.drop_last());
    }
}

/// The words of `stage` as tokens.
pub open spec fn as_words(stage: Seq<Seq<char>>) -> Seq<Token> {
    Seq::new(stage.len(), |i: int| Token::Word(stage[i]))
}

/// The tokens that spell out `stages`: the words of each stage, with a
/// separator between each two stages.
pub open spec fn unsplit(stages: Seq<Seq<Seq<char>>>) -> Seq<Token>
    decreases stages.len(),
{
    if stages.len() == 0 {
        Seq::empty()
    } else if stages.len() == 1 {
        as_words(stages[0])
    } else {
        unsplit(stages.drop_last()) + seq![Token::Separator] + as_words(stages.last())
    }
}

/// Splitting loses nothing: the stages of a sequence of tokens spell out
/// that sequence again.
pub proof fn lemma_unsplit_split(tokens: Seq<Token>)
    ensures
        unsplit(split(tokens)) == tokens,
    decreases tokens.len(),
{
    if tokens.len() == 0 {
        assert(as_words(Seq::empty()) =~= Seq::<Token>::empty());
        assert(tokens =~= Seq::<Token>::empty());
    } else {
        let before = split(tokens.drop_last());
        lemma_split_len(tokens.drop_last());
        lemma_unsplit_split(tokens.drop_last());
        match tokens.last() {
            Token::Separator => {
                let stages = before.push(Seq::empty());
                assert(stages.drop_last() =~= before);
                assert(as_words(stages.last()) =~= Seq::<Token>::empty());
                assert(unsplit(stages) =~= tokens.drop_last().push(Token::Separator));
            },
            Token::Word(text) => {
                let stage = before.last().push(text);
                let stages = before.drop_last().push(stage);
                assert(as_words(stage) =~= as_words(before.last()).push(Token::Word(text)));
                if before.len() > 1 {
                    assert(stages.drop_last() =~= before.drop_last());
                }
                assert(unsplit(stages) =~= unsplit(before).push(Token::Word(text)));
            },
        }
        assert(tokens =~= tokens.drop_last().push(tokens.last()));
    }
}

/// The tokens `seen`, followed by what cutting the rest of a text gives.
pub open spec fn followed_by(seen: Seq<Token>, rest: Result<Seq<Token>, lex::Error>) -> Result<
    Seq<Token>,
    lex::Error,
> {
    match rest {
        Ok(more) => Ok(seen + more),
        Err(error) => Err(error),
    }
}

/// Cuts all the text that `lexer` has left into tokens and groups them into
/// stages. Fails, without any stage, where the lexer does.
pub fn parse<'a>(lexer: Lexer<'a>) -> (result: Result<Vec<Cmd<'a>>, Error>)
    requires
        lexer.wf(),
    ensures
        match tokens(lexer@.left, lexer@.separator) {
            Ok(all) => {
                &&& result matches Ok(cmds)
                &&& cmds.deep_view() == split(all)
                &&& cmds.len() == separators(all) + 1
            },
            Err(error) => result == Err::<Vec<Cmd<'a>>, Error>(Error::LexError(error)),
        },
{
    let ghost text = lexer@.left;
    let ghost sep = lexer@.separator;
    let mut rest = lexer;
    let mut cmds: Vec<Cmd<'a>> = Vec::new();
    cmds.push(Cmd::new());
    let ghost seen = Seq::<Token>::empty();
    assert(cmds.deep_view() =~= split(seen));
    assert(followed_by(seen, tokens(text, sep)) =~= tokens(text, sep));
    loop
        invariant
            rest.wf(),
            rest@.separator == sep,
            text == lexer@.left,
            sep == lexer@.separator,
            cmds.len() > 0,
            cmds.deep_view() == split(seen),
            tokens(text, sep) == followed_by(seen, tokens(rest@.left, sep)),
        decreases rest@.left.len(),
    {
        let ghost left = rest@.left;
        let ghost before = cmds.deep_view();
        proof {
            lemma_scan_shrinks(left, sep);
        }
        match rest.next() {
            None => {
                assert(seen + Seq::<Token>::empty() =~= seen);
                proof {
                    lemma_split_len(seen);
                }
                return Ok(cmds);
            },
            Some(Err(error)) => {
                return Err(Error::LexError(error));
            },
            Some(Ok(Tok::String(word))) => {
                let last = cmds.len() - 1;
                cmds[last].0.push(word);
                proof {
                    let token = Token::Word(word@);
                    let more = tokens(rest@.left, sep);
                    if more is Ok {
                        assert(seen + (seq![token] + more->Ok_0) =~= seen.push(token) + more->Ok_0);
                    }
                    assert(seen.push(token).drop_last() =~= seen);
                    seen = seen.push(token);
                    assert(cmds@[last as int].deep_view() =~= before.last().push(word@));
                    assert(cmds.deep_view() =~= before.drop_last().push(before.last().push(word@)));
                }
            },
            Some(Ok(Tok::Semicolon)) => {
                cmds.push(Cmd::new());
                proof {
                    let token = Token::Separator;
                    let more = tokens(rest@.left, sep);
                    if more is Ok {
                        assert(seen + (seq![token] + more->Ok_0) =~= seen.push(token) + more->Ok_0);
                    }
                    assert(seen.push(token).drop_last() =~= seen);
                    seen = seen.push(token);
                    assert(cmds.deep_view() =~= before.push(Seq::empty()));
                }
            },
        }
    }
}

} // verus!
