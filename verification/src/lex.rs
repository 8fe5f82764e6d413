//! Cutting a line of text into words and separators.

use vstd::prelude::*;
use crate::replace::{ReplaceOne, Stream};
use crate::text::{
    all_blank, collapsed, is_whitespace, joined, lemma_collapsed_last_word, lemma_collapsed_word,
    trim_start, whitespace,
};

verus! {

/// The pipe: the character that ends one stage of a pipeline and begins the
/// next, unless a lexer is told another.
pub const PIPE: char = '|';

/// The character that opens and closes a quoted word.
pub const QUOTE: char = '"';

/// Why a line could not be cut into tokens.
#[derive(Eq, PartialEq, Copy, Clone, Debug)]
pub enum Error {
    /// A quoted word was opened and the line ended before it was closed.
    UnterminatedString,
}

impl Error {
    /// A short description of the error.
    pub fn description(&self) -> (text: &'static str)
        ensures
            text@ == "Quoted string left unclosed."@,
    {
        match self {
            Error::UnterminatedString => "Quoted string left unclosed.",
        }
    }

    /// The error as a message for the user.
    pub fn to_string(&self) -> (text: String)
        ensures
            text@ == "Quoted string left unclosed."@,
    {
        String::from_str(self.description())
    }
}

/// Whether `c` ends an unquoted word that stands before it: a blank does, and
/// so does the separator `sep`.
pub open spec fn ends_word(c: char, sep: char) -> bool {
    is_whitespace(c) || c == sep
}

/// Tells whether `c` ends an unquoted word that stands before it, where `sep`
/// is the separator.
pub fn terminates_unquoted_string(c: char, sep: char) -> (ends: bool)
    ensures
        ends == ends_word(c, sep),
{
    whitespace(c) || c == sep
}

/// What a token stands for: a word with its text, or the boundary between two
/// stages.
pub enum Token {
    Word(Seq<char>),
    Separator,
}

/// A token, whose text is borrowed from the line it was cut from.
#[derive(Eq, PartialEq, Copy, Clone, Debug)]
pub enum Tok<'a> {
    /// A word, quoted or not. The quotes are not part of it.
    String(&'a str),
    /// The separator of two stages.
    Semicolon,
}

impl<'a> View for Tok<'a> {
    type V = Token;

    open spec fn view(&self) -> Token {
        match self {
            Tok::String(text) => Token::Word(text@),
            Tok::Semicolon => Token::Separator,
        }
    }
}

/// The kinds of stretches that the lexer passes over in one go.
pub enum Run {
    /// Blanks between tokens.
    Blank,
    /// The characters of an unquoted word.
    Word,
    /// The characters between two quotes.
    Quoted,
}

/// Whether a stretch of kind `run` goes on over `c`, where `sep` is the
/// separator.
pub open spec fn goes_on(run: Run, c: char, sep: char) -> bool {
    match run {
        Run::Blank => is_whitespace(c),
        Run::Word => !ends_word(c, sep),
        Run::Quoted => c != QUOTE,
    }
}

/// The length of the longest stretch of kind `run` that `text` begins with.
pub open spec fn run_len(text: Seq<char>, run: Run, sep: char) -> nat
    decreases text.len(),
{
    if text.len() > 0 && goes_on(run, text[0], sep) {
        1 + run_len(text.skip(1), run, sep)
    } else {
        0
    }
}

/// A stretch lies within the text, holds only characters of its kind, and
/// ends at the end of the text or before a character of another kind.
pub proof fn lemma_run_len(text: Seq<char>, run: Run, sep: char)
    ensures
        run_len(text, run, sep) <= text.len(),
        forall|k: int| 0 <= k < run_len(text, run, sep) ==> goes_on(run, #[trigger] text[k], sep),
        run_len(text, run, sep) < text.len() ==> !goes_on(
            run,
            text[run_len(text, run, sep) as int],
            sep,
        ),
    decreases text.len(),
{
    if text.len() > 0 && goes_on(run, text[0], sep) {
        let tail = text.skip(1);
        lemma_run_len(tail, run, sep);
        assert forall|k: int| 0 <= k < run_len(text, run, sep) implies goes_on(
            run,
            #[trigger] text[k],
            sep,
        ) by {
            if k > 0 {
                assert(text[k] == tail[k - 1]);
            }
        }
        if run_len(text, run, sep) < text.len() {
            assert(text[run_len(text, run, sep) as int] == tail[run_len(tail, run, sep) as int]);
        }
    }
}

/// The stretch is `n` long if the first `n` characters are of its kind and the
/// text ends there or goes on with a character of another kind.
pub proof fn lemma_run_len_is(text: Seq<char>, run: Run, n: int, sep: char)
    requires
        0 <= n <= text.len(),
        forall|k: int| 0 <= k < n ==> goes_on(run, #[trigger] text[k], sep),
        n < text.len() ==> !goes_on(run, text[n], sep),
    ensures
        run_len(text, run, sep) == n,
    decreases n,
{
    if n > 0 {
        let tail = text.skip(1);
        assert(goes_on(run, text[0], sep));
        assert forall|k: int| 0 <= k < n - 1 implies goes_on(run, #[trigger] tail[k], sep) by {
            assert(tail[k] == text[k + 1]);
        }
        if n - 1 < tail.len() {
            assert(tail[n - 1] == text[n]);
        }
        lemma_run_len_is(tail, run, n - 1, sep);
    }
}

/// What the lexer finds at the front of a text.
pub enum Scan {
    /// Nothing but blanks is left.
    End,
    /// A quoted word begins and is never closed.
    Unterminated,
    /// A token, and the text that follows it.
    Found { token: Token, rest: Seq<char> },
}

/// The first token of `text`.
///
/// Leading blanks are passed over. The separator alone is a token. A quote
/// opens a word that holds everything up to the next quote, blanks and
/// separators too. Any other character begins a word that runs until a blank,
/// a separator or the end of the text.
pub open spec fn scan(text: Seq<char>, sep: char) -> Scan {
    let from = text.skip(run_len(text, Run::Blank, sep) as int);
    if from.len() == 0 {
        Scan::End
    } else if from[0] == sep {
        Scan::Found { token: Token::Separator, rest: from.skip(1) }
    } else if from[0] == QUOTE {
        let inside = from.skip(1);
        let n = run_len(inside, Run::Quoted, sep) as int;
        if n == inside.len() {
            Scan::Unterminated
        } else {
            Scan::Found { token: Token::Word(inside.take(n)), rest: inside.skip(n + 1) }
        }
    } else {
        let n = run_len(from, Run::Word, sep) as int;
        Scan::Found { token: Token::Word(from.take(n)), rest: from.skip(n) }
    }
}

/// Every token uses up at least one character.
pub proof fn lemma_scan_shrinks(text: Seq<char>, sep: char)
    ensures
        scan(text, sep) matches Scan::Found { rest, .. } ==> rest.len() < text.len(),
{
    lemma_run_len(text, Run::Blank, sep);
    let from = text.skip(run_len(text, Run::Blank, sep) as int);
    if from.len() > 0 {
        lemma_run_len(from.skip(1), Run::Quoted, sep);
        lemma_run_len(from, Run::Word, sep);
    }
}

/// All the tokens of `text` in order, or the error that cutting it runs into.
pub open spec fn tokens(text: Seq<char>, sep: char) -> Result<Seq<Token>, Error>
    decreases text.len(),
{
    match scan(text, sep) {
        Scan::End => Ok(Seq::empty()),
        Scan::Unterminated => Err(Error::UnterminatedString),
        Scan::Found { token, rest } => {
            proof {
                lemma_scan_shrinks(text, sep);
            }
            match tokens(rest, sep) {
                Ok(more) => Ok(seq![token] + more),
                Err(error) => Err(error),
            }
        },
    }
}

/// A stretch that ends within a text is the same however the text goes on.
pub proof fn lemma_run_len_append(text: Seq<char>, tail: Seq<char>, run: Run, sep: char)
    requires
        run_len(text, run, sep) < text.len(),
    ensures
        run_len(text + tail, run, sep) == run_len(text, run, sep),
{
    let n = run_len(text, run, sep) as int;
    let whole = text + tail;
    lemma_run_len(text, run, sep);
    assert forall|k: int| 0 <= k < n implies goes_on(run, #[trigger] whole[k], sep) by {
        assert(whole[k] == text[k]);
    }
    assert(whole[n] == text[n]);
    lemma_run_len_is(whole, run, n, sep);
}

/// The blanks at the front of a text do not change what is found in it.
pub proof fn lemma_scan_skips_blanks(blanks: Seq<char>, text: Seq<char>, sep: char)
    requires
        all_blank(blanks),
    ensures
        scan(blanks + text, sep) == scan(text, sep),
{
    let whole = blanks + text;
    let lead = run_len(text, Run::Blank, sep) as int;
    lemma_run_len(text, Run::Blank, sep);
    assert forall|k: int| 0 <= k < blanks.len() + lead implies goes_on(
        Run::Blank,
        #[trigger] whole[k],
        sep,
    ) by {
        if k < blanks.len() {
            assert(whole[k] == blanks[k]);
        } else {
            assert(whole[k] == text[k - blanks.len()]);
        }
    }
    if blanks.len() + lead < whole.len() {
        assert(whole[blanks.len() + lead] == text[lead]);
    }
    lemma_run_len_is(whole, Run::Blank, blanks.len() + lead, sep);
    assert(whole.skip(blanks.len() + lead) =~= text.skip(lead));
}

/// Whether a token that `text` ends with is complete: the text is empty or
/// ends with a blank or a separator, so that no word runs up to its end.
pub open spec fn ends_between_tokens(text: Seq<char>, sep: char) -> bool {
    text.len() == 0 || ends_word(text.last(), sep)
}

/// A token found in a text that ends between tokens is found as well
/// however the text goes on, and what is left then goes on the same way.
pub proof fn lemma_scan_append(head: Seq<char>, tail: Seq<char>, sep: char)
    requires
        ends_between_tokens(head, sep),
    ensures
        scan(head, sep) matches Scan::Found { token, rest } ==> {
            &&& scan(head + tail, sep) == (Scan::Found { token, rest: rest + tail })
            &&& ends_between_tokens(rest, sep)
        },
        scan(head, sep) is End ==> scan(head + tail, sep) == scan(tail, sep),
{
    let whole = head + tail;
    let lead = run_len(head, Run::Blank, sep) as int;
    lemma_run_len(head, Run::Blank, sep);
    let from = head.skip(lead);
    if from.len() == 0 {
        assert(head.skip(lead) =~= Seq::<char>::empty());
        assert forall|i: int| 0 <= i < head.len() implies is_whitespace(#[trigger] head[i]) by {
            assert(goes_on(Run::Blank, head[i], sep));
        }
        lemma_scan_skips_blanks(head, tail, sep);
    } else {
        lemma_run_len_append(head, tail, Run::Blank, sep);
        let from_whole = whole.skip(lead);
        assert(from_whole =~= from + tail);
        assert(from_whole[0] == from[0]);
        if from[0] == sep {
            assert(from_whole.skip(1) =~= from.skip(1) + tail);
            if from.skip(1).len() > 0 {
                assert(from.skip(1).last() == head.last());
            }
        } else if from[0] == QUOTE {
            let inside = from.skip(1);
            let n = run_len(inside, Run::Quoted, sep) as int;
            lemma_run_len(inside, Run::Quoted, sep);
            assert(from_whole.skip(1) =~= inside + tail);
            if n < inside.len() {
                lemma_run_len_append(inside, tail, Run::Quoted, sep);
                assert((inside + tail).take(n) =~= inside.take(n));
                assert((inside + tail).skip(n + 1) =~= inside.skip(n + 1) + tail);
                if inside.skip(n + 1).len() > 0 {
                    assert(inside.skip(n + 1).last() == head.last());
                }
            }
        } else {
            let n = run_len(from, Run::Word, sep) as int;
            lemma_run_len(from, Run::Word, sep);
            if n == from.len() {
                assert(from[n - 1] == head.last());
                assert(goes_on(Run::Word, from[n - 1], sep));
                assert(false);
            }
            lemma_run_len_append(from, tail, Run::Word, sep);
            assert(from_whole.take(n) =~= from.take(n));
            assert(from_whole.skip(n) =~= from.skip(n) + tail);
            assert(from.skip(n).last() == head.last());
        }
    }
}

/// The tokens of two texts of which the first ends between tokens are the
/// tokens of the first followed by those of the second; an error in the
/// second is the error of the whole.
pub proof fn lemma_tokens_append(head: Seq<char>, tail: Seq<char>, sep: char)
    requires
        tokens(head, sep) is Ok,
        ends_between_tokens(head, sep),
    ensures
        tokens(head + tail, sep) == match tokens(tail, sep) {
            Ok(more) => Ok::<Seq<Token>, Error>(tokens(head, sep)->Ok_0 + more),
            Err(error) => Err(error),
        },
    decreases head.len(),
{
    lemma_scan_append(head, tail, sep);
    match scan(head, sep) {
        Scan::End => {
            assert(tokens(head + tail, sep) == tokens(tail, sep));
            if tokens(tail, sep) is Ok {
                let more = tokens(tail, sep)->Ok_0;
                assert(Seq::<Token>::empty() + more =~= more);
            }
        },
        Scan::Unterminated => {},
        Scan::Found { token, rest } => {
            lemma_scan_shrinks(head, sep);
            lemma_tokens_append(rest, tail, sep);
            if tokens(tail, sep) is Ok {
                let more = tokens(tail, sep)->Ok_0;
                let mid = tokens(rest, sep)->Ok_0;
                assert(seq![token] + (mid + more) =~= (seq![token] + mid) + more);
            }
        },
    }
}

/// A quote that opens a word and is never closed makes the whole line fail
/// with that error, whatever tokens stand before it and whatever follows it.
pub proof fn lemma_unterminated(head: Seq<char>, tail: Seq<char>, sep: char)
    requires
        sep != QUOTE,
        tokens(head, sep) is Ok,
        ends_between_tokens(head, sep),
        forall|i: int| 0 <= i < tail.len() ==> #[trigger] tail[i] != QUOTE,
    ensures
        tokens(head + seq![QUOTE] + tail, sep) == Err::<Seq<Token>, Error>(
            Error::UnterminatedString,
        ),
{
    let open = seq![QUOTE] + tail;
    assert(run_len(open, Run::Blank, sep) == 0);
    assert(open.skip(0) =~= open);
    assert(open.skip(1) =~= tail);
    assert forall|k: int| 0 <= k < tail.len() implies goes_on(
        Run::Quoted,
        #[trigger] tail[k],
        sep,
    ) by {}
    lemma_run_len_is(tail, Run::Quoted, tail.len() as int, sep);
    assert(scan(open, sep) is Unterminated);
    lemma_tokens_append(head, open, sep);
    assert(head + seq![QUOTE] + tail =~= head + open);
}

/// The text of each of `all`: of a word its characters. A separator has none.
pub open spec fn texts(all: Seq<Token>) -> Seq<Seq<char>> {
    Seq::new(
        all.len(),
        |i: int|
            match all[i] {
                Token::Word(text) => text,
                Token::Separator => Seq::empty(),
            },
    )
}

/// Whether `text` holds neither a quote nor a separator.
pub open spec fn plain(text: Seq<char>, sep: char) -> bool {
    forall|i: int| 0 <= i < text.len() ==> #[trigger] text[i] != QUOTE && text[i] != sep
}

/// Trimming the front of a text drops its leading stretch of blanks.
pub proof fn lemma_trim_start(text: Seq<char>, sep: char)
    ensures
        trim_start(text) == text.skip(run_len(text, Run::Blank, sep) as int),
    decreases text.len(),
{
    if text.len() > 0 && is_whitespace(text[0]) {
        let tail = text.skip(1);
        lemma_trim_start(tail, sep);
        lemma_run_len(tail, Run::Blank, sep);
        assert(tail.skip(run_len(tail, Run::Blank, sep) as int) =~= text.skip(
            run_len(text, Run::Blank, sep) as int,
        ));
    } else {
        assert(text.skip(0) =~= text);
    }
}

/// A text without quotes and separators is cut into words only, and the
/// words joined by single spaces are the text with its blanks collapsed.
pub proof fn lemma_words_rejoin(text: Seq<char>, sep: char)
    requires
        plain(text, sep),
    ensures
        tokens(text, sep) matches Ok(all) && {
            &&& forall|i: int| 0 <= i < all.len() ==> #[trigger] all[i] is Word
            &&& joined(texts(all), seq![' ']) == collapsed(text)
            &&& all.len() == 0 <==> all_blank(text)
        },
    decreases text.len(),
{
    let space = seq![' '];
    let lead = run_len(text, Run::Blank, sep) as int;
    lemma_run_len(text, Run::Blank, sep);
    lemma_trim_start(text, sep);
    let from = text.skip(lead);
    if from.len() == 0 {
        assert(texts(Seq::<Token>::empty()) =~= Seq::empty());
    } else {
        assert(from[0] == text[lead]);
        assert(!all_blank(text));
        let n = run_len(from, Run::Word, sep) as int;
        lemma_run_len(from, Run::Word, sep);
        let word = from.take(n);
        let rest = from.skip(n);
        assert(from =~= word + rest);
        assert(n >= 1);
        assert forall|i: int| 0 <= i < rest.len() implies #[trigger] rest[i] != QUOTE && rest[i]
            != sep by {
            assert(rest[i] == text[lead + n + i]);
        }
        assert forall|i: int| 0 <= i < word.len() implies !is_whitespace(#[trigger] word[i]) by {
            assert(word[i] == from[i]);
        }
        lemma_scan_shrinks(text, sep);
        lemma_words_rejoin(rest, sep);
        let more = tokens(rest, sep)->Ok_0;
        let all = seq![Token::Word(word)] + more;
        assert(tokens(text, sep) == Ok::<Seq<Token>, Error>(all));
        assert(texts(all) =~= seq![word] + texts(more));
        if all_blank(rest) {
            assert(texts(all) =~= seq![word]);
            lemma_collapsed_last_word(word, rest);
        } else {
            assert(texts(all).skip(1) =~= texts(more));
            assert(texts(all)[0] == word);
            assert(joined(texts(all), space) == word + space + collapsed(rest));
            let gap_len = run_len(rest, Run::Blank, sep) as int;
            lemma_run_len(rest, Run::Blank, sep);
            lemma_trim_start(rest, sep);
            assert(rest[0] == from[n]);
            let gap = rest.take(gap_len);
            let after = rest.skip(gap_len);
            assert(rest =~= gap + after);
            if gap_len == rest.len() {
                assert forall|i: int| 0 <= i < rest.len() implies is_whitespace(
                    #[trigger] rest[i],
                ) by {
                    assert(goes_on(Run::Blank, rest[i], sep));
                }
            }
            assert(after[0] == rest[gap_len]);
            assert forall|i: int| 0 <= i < gap.len() implies is_whitespace(#[trigger] gap[i]) by {
                assert(gap[i] == rest[i]);
            }
            lemma_collapsed_word(word, gap, after);
        }
    }
}

/// The characters of `text` from position `from` on, each with its position.
pub open spec fn indexed(text: Seq<char>, from: int) -> Seq<(usize, char)> {
    Seq::new((text.len() - from) as nat, |k: int| ((from + k) as usize, text[from + k]))
}

/// The characters of a text with their positions, as a stream. A position
/// counts characters, not bytes.
pub struct CharCursor<'a> {
    text: &'a str,
    at: usize,
    len: usize,
}

impl<'a> CharCursor<'a> {
    #[verifier::type_invariant]
    spec fn wf(&self) -> bool {
        self.at <= self.len && self.len == self.text@.len()
    }

    /// A cursor at the start of `text`.
    pub fn new(text: &'a str) -> (cursor: CharCursor<'a>)
        ensures
            cursor.rest() == indexed(text@, 0),
            text@.len() <= usize::MAX,
    {
        CharCursor { text: text, at: 0, len: text.unicode_len() }
    }
}

impl<'a> Stream for CharCursor<'a> {
    type Item = (usize, char);

    closed spec fn rest(&self) -> Seq<(usize, char)> {
        indexed(self.text@, self.at as int)
    }

    fn next(&mut self) -> (item: Option<(usize, char)>) {
        proof {
            use_type_invariant(&*self);
        }
        if self.at < self.len {
            let at = self.at;
            let c = self.text.get_char(at);
            self.at = at + 1;
            assert(indexed(self.text@, at as int).skip(1) =~= indexed(self.text@, at + 1));
            Some((at, c))
        } else {
            None
        }
    }
}

/// Lexical analyzer.
///
/// Each call of [`Lexer::next`] cuts one token off the front of the text that
/// is left. After an error the rest of the text is discarded, so every later
/// call finds the end.
pub struct Lexer<'a> {
    source: &'a str,
    chars: ReplaceOne<CharCursor<'a>>,
    separator: char,
}

/// What a lexer stands for: the text that it has left to cut, and the
/// character that it takes for the separator.
pub struct Lexing {
    pub left: Seq<char>,
    pub separator: char,
}

impl<'a> View for Lexer<'a> {
    type V = Lexing;

    closed spec fn view(&self) -> Lexing {
        Lexing { left: self.source@.skip(self.pos()), separator: self.separator }
    }
}

impl<'a> Lexer<'a> {
    /// Whether the lexer is in order: the characters still to come are those
    /// of its text from some position on. Every lexer that [`Lexer::new`]
    /// makes is, and stays so.
    pub closed spec fn wf(&self) -> bool {
        &&& self.source@.len() <= usize::MAX
        &&& self.chars.rest().len() <= self.source@.len()
        &&& self.chars.rest() == indexed(self.source@, self.pos())
    }

    /// The position of the first character that is left.
    spec fn pos(&self) -> int {
        self.source@.len() - self.chars.rest().len()
    }

    /// Creates a new lexer, with all of `source` left to be cut and the pipe
    /// for the separator.
    pub fn new(source: &'a str) -> (lexer: Lexer<'a>)
        ensures
            lexer.wf(),
            lexer@.left == source@,
            lexer@.separator == PIPE,
    {
        Lexer::with_separator(source, PIPE)
    }

    /// Creates a new lexer, with all of `source` left to be cut and
    /// `separator` for the separator.
    pub fn with_separator(source: &'a str, separator: char) -> (lexer: Lexer<'a>)
        ensures
            lexer.wf(),
            lexer@.left == source@,
            lexer@.separator == separator,
    {
        let chars = ReplaceOne::new(CharCursor::new(source));
        let lexer = Lexer { source: source, chars: chars, separator: separator };
        assert(lexer@.left =~= source@);
        lexer
    }

    /// Takes the next character that is left, with its position.
    fn take(&mut self) -> (item: Option<(usize, char)>)
        requires
            old(self).wf(),
        ensures
            final(self).wf(),
            final(self).source == old(self).source,
            final(self).separator == old(self).separator,
            final(self).chars.held() is None,
            match item {
                Some((i, c)) => {
                    &&& i == old(self).pos() < old(self).source@.len()
                    &&& c == old(self).source@[i as int]
                    &&& final(self).pos() == i + 1
                },
                None => old(self).pos() == final(self).pos() == old(self).source@.len(),
            },
    {
        let ghost text = self.source@;
        let ghost at = self.pos();
        let item = self.chars.next();
        proof {
            if item is Some {
                assert(indexed(text, at).skip(1) =~= indexed(text, at + 1));
            }
        }
        item
    }

    /// Hands back the character `c` of position `i`, which was the last taken.
    fn put_back(&mut self, i: usize, c: char)
        requires
            old(self).wf(),
            old(self).chars.held() is None,
            i + 1 == old(self).pos(),
            c == old(self).source@[i as int],
        ensures
            final(self).wf(),
            final(self).source == old(self).source,
            final(self).separator == old(self).separator,
            final(self).pos() == i,
    {
        let ghost text = self.source@;
        self.chars.replace((i, c));
        assert(self.chars.rest() =~= indexed(text, i as int));
    }

    /// Discards all the text that is left.
    fn consume(&mut self)
        requires
            old(self).wf(),
        ensures
            final(self).wf(),
            final(self).source == old(self).source,
            final(self).separator == old(self).separator,
            final(self).pos() == old(self).source@.len(),
    {
        let sep = self.separator;
        loop
            invariant
                self.source == old(self).source,
                self.separator == sep == old(self).separator,
                self.wf(),
            ensures
                self.source == old(self).source,
                self.separator == sep == old(self).separator,
                self.chars.rest().len() == 0,
            decreases self.chars.rest().len(),
        {
            if self.take().is_none() {
                break;
            }
        }
    }

    /// Passes over the blanks at the front of the text that is left.
    fn consume_whitespace(&mut self)
        requires
            old(self).wf(),
        ensures
            final(self).wf(),
            final(self).source == old(self).source,
            final(self).separator == old(self).separator,
            final(self).pos() == old(self).pos() + run_len(
                old(self)@.left,
                Run::Blank,
                old(self)@.separator,
            ),
    {
        let sep = self.separator;
        let ghost text = self.source@;
        let ghost start = self.pos();
        loop
            invariant
                self.source == old(self).source,
                self.separator == sep == old(self).separator,
                text == self.source@,
                self.wf(),
                start <= self.pos(),
                forall|k: int| start <= k < self.pos() ==> is_whitespace(#[trigger] text[k]),
            ensures
                self.source == old(self).source,
                self.separator == sep == old(self).separator,
                self.wf(),
                start <= self.pos(),
                forall|k: int| start <= k < self.pos() ==> is_whitespace(#[trigger] text[k]),
                self.pos() < text.len() ==> !is_whitespace(text[self.pos()]),
            decreases self.chars.rest().len(),
        {
            match self.take() {
                Some((i, c)) => {
                    if !whitespace(c) {
                        self.put_back(i, c);
                        break;
                    }
                },
                None => {
                    break;
                },
            }
        }
        proof {
            let left = text.skip(start);
            let n = self.pos() - start;
            assert forall|k: int| 0 <= k < n implies goes_on(
                Run::Blank,
                #[trigger] left[k],
                sep,
            ) by {
                assert(left[k] == text[start + k]);
            }
            lemma_run_len_is(left, Run::Blank, n, sep);
        }
    }

    /// Expects an unquoted word whose first character, at position `start`,
    /// has just been taken.
    fn unquoted_string(&mut self, start: usize) -> (word: Tok<'a>)
        requires
            old(self).wf(),
            start + 1 == old(self).pos(),
            !ends_word(old(self).source@[start as int], old(self)@.separator),
        ensures
            final(self).wf(),
            final(self).source == old(self).source,
            final(self).separator == old(self).separator,
            ({
                let from = old(self).source@.skip(start as int);
                let n = run_len(from, Run::Word, old(self)@.separator);
                final(self).pos() == start + n && word@ == Token::Word(from.take(n as int))
            }),
    {
        let sep = self.separator;
        let ghost text = self.source@;
        let mut end: usize = self.source.unicode_len();
        loop
            invariant_except_break
                end == text.len(),
            invariant
                self.source == old(self).source,
                self.separator == sep == old(self).separator,
                text == self.source@,
                self.wf(),
                start < self.pos(),
                forall|k: int| start <= k < self.pos() ==> !ends_word(#[trigger] text[k], sep),
            ensures
                self.source == old(self).source,
                self.separator == sep == old(self).separator,
                self.wf(),
                start < self.pos() == end,
                forall|k: int| start <= k < self.pos() ==> !ends_word(#[trigger] text[k], sep),
                self.pos() < text.len() ==> ends_word(text[self.pos()], sep),
            decreases self.chars.rest().len(),
        {
            match self.take() {
                Some((i, c)) => {
                    if terminates_unquoted_string(c, sep) {
                        self.put_back(i, c);
                        end = i;
                        break;
                    }
                },
                None => {
                    break;
                },
            }
        }
        proof {
            let left = text.skip(start as int);
            let n = end - start;
            assert forall|k: int| 0 <= k < n implies goes_on(
                Run::Word,
                #[trigger] left[k],
                sep,
            ) by {
                assert(left[k] == text[start + k]);
            }
            lemma_run_len_is(left, Run::Word, n, sep);
            assert(text.subrange(start as int, end as int) =~= left.take(n));
        }
        Tok::String(self.source.substring_char(start, end))
    }

    /// Expects a quoted word whose opening quote has just been taken.
    fn quoted_string(&mut self) -> (word: Result<Tok<'a>, Error>)
        requires
            old(self).wf(),
        ensures
            final(self).wf(),
            final(self).source == old(self).source,
            final(self).separator == old(self).separator,
            ({
                let n = run_len(old(self)@.left, Run::Quoted, old(self)@.separator);
                match word {
                    Ok(word) => {
                        &&& n < old(self)@.left.len()
                        &&& word@ == Token::Word(old(self)@.left.take(n as int))
                        &&& final(self).pos() == old(self).pos() + n + 1
                    },
                    Err(error) => n == old(self)@.left.len() && error == Error::UnterminatedString,
                }
            }),
    {
        let sep = self.separator;
        let ghost text = self.source@;
        let ghost from = self.pos();
        let start = match self.take() {
            Some((i, c)) => {
                if c == QUOTE {
                    proof {
                        lemma_run_len_is(text.skip(from), Run::Quoted, 0, sep);
                        assert(text.subrange(i as int, i as int) =~= text.skip(from).take(0));
                    }
                    return Ok(Tok::String(self.source.substring_char(i, i)));
                }
                i
            },
            None => {
                proof {
                    lemma_run_len_is(text.skip(from), Run::Quoted, 0, sep);
                }
                return Err(Error::UnterminatedString);
            },
        };
        loop
            invariant
                self.source == old(self).source,
                self.separator == sep == old(self).separator,
                text == self.source@,
                self.wf(),
                start == from,
                from == old(self).pos(),
                old(self)@.left == text.skip(from),
                from < self.pos(),
                forall|k: int| from <= k < self.pos() ==> #[trigger] text[k] != QUOTE,
            decreases self.chars.rest().len(),
        {
            match self.take() {
                Some((i, c)) => {
                    if c == QUOTE {
                        proof {
                            let left = text.skip(from);
                            let n = i - from;
                            assert forall|k: int| 0 <= k < n implies goes_on(
                                Run::Quoted,
                                #[trigger] left[k],
                                sep,
                            ) by {
                                assert(left[k] == text[from + k]);
                            }
                            assert(left[n] == text[i as int]);
                            lemma_run_len_is(left, Run::Quoted, n, sep);
                            assert(text.subrange(start as int, i as int) =~= left.take(n));
                        }
                        return Ok(Tok::String(self.source.substring_char(start, i)));
                    }
                },
                None => {
                    proof {
                        let left = text.skip(from);
                        let n = text.len() - from;
                        assert forall|k: int| 0 <= k < n implies goes_on(
                            Run::Quoted,
                            #[trigger] left[k],
                            sep,
                        ) by {
                            assert(left[k] == text[from + k]);
                        }
                        lemma_run_len_is(left, Run::Quoted, n, sep);
                    }
                    return Err(Error::UnterminatedString);
                },
            }
        }
    }

    /// Cuts the next token off the text that is left.
    ///
    /// Returns `None` where nothing but blanks is left. Where a quoted word is
    /// never closed, returns the error and discards the text.
    pub fn next(&mut self) -> (item: Option<Result<Tok<'a>, Error>>)
        requires
            old(self).wf(),
        ensures
            final(self).wf(),
            final(self)@.separator == old(self)@.separator,
            old(self)@.left.len() == 0 ==> item is None,
            match scan(old(self)@.left, old(self)@.separator) {
                Scan::End => item is None && final(self)@.left == Seq::<char>::empty(),
                Scan::Unterminated => {
                    &&& item == Some(Err::<Tok<'a>, Error>(Error::UnterminatedString))
                    &&& final(self)@.left == Seq::<char>::empty()
                },
                Scan::Found { token, rest } => {
                    &&& item matches Some(Ok(word))
                    &&& word@ == token
                    &&& final(self)@.left == rest
                },
            },
    {
        let sep = self.separator;
        let ghost text = self.source@;
        let ghost left = self@.left;
        self.consume_whitespace();
        proof {
            lemma_run_len(left, Run::Blank, sep);
        }
        let ghost at = self.pos();
        let ghost from = left.skip(run_len(left, Run::Blank, sep) as int);
        assert(from =~= text.skip(at));
        match self.take() {
            Some((i, c)) => {
                assert(c == from[0]);
                let item = if c == sep {
                    assert(self@.left =~= from.skip(1));
                    Ok(Tok::Semicolon)
                } else if c == QUOTE {
                    assert(self@.left =~= from.skip(1));
                    let word = self.quoted_string();
                    proof {
                        let inside = from.skip(1);
                        let n = run_len(inside, Run::Quoted, sep) as int;
                        if word is Ok {
                            assert(self@.left =~= inside.skip(n + 1));
                        }
                    }
                    word
                } else {
                    let word = self.unquoted_string(i);
                    proof {
                        lemma_run_len(from, Run::Word, sep);
                        let n = run_len(from, Run::Word, sep) as int;
                        assert(self@.left =~= from.skip(n));
                    }
                    Ok(word)
                };
                if item.is_err() {
                    self.consume();
                    assert(self@.left =~= Seq::<char>::empty());
                }
                Some(item)
            },
            None => {
                assert(self@.left =~= Seq::<char>::empty());
                None
            },
        }
    }
}

} // verus!
