//! The lexer: source text to a flat sequence of tokens.
//!
//! Every character belongs to one of five classes. A token is either a
//! maximal run of whitespace, alphabetic or numeric characters, or a single
//! symbolic character. Whitespace is kept, so the tokens of a text spell that
//! text again, character for character.

use vstd::prelude::*;

verus! {

/// A lexical token. The three run variants carry the characters of the run.
#[derive(Clone, Debug, PartialEq, Eq)]
pub enum Token {
    Whitespace(String),
    Identifier(String),
    Number(String),
    Symbol(char),
}

/// The mathematical value of a [`Token`].
pub enum TokenView {
    Whitespace(Seq<char>),
    Identifier(Seq<char>),
    Number(Seq<char>),
    Symbol(char),
}

impl View for Token {
    type V = TokenView;

    open spec fn view(&self) -> TokenView {
        match self {
            Token::Whitespace(text) => TokenView::Whitespace(text@),
            Token::Identifier(text) => TokenView::Identifier(text@),
            Token::Number(text) => TokenView::Number(text@),
            Token::Symbol(ch) => TokenView::Symbol(*ch),
        }
    }
}

impl DeepView for Token {
    type V = TokenView;

    open spec fn deep_view(&self) -> TokenView {
        self@
    }
}

/// The class of a character, which decides the kind of token it can be part of.
#[derive(Clone, Copy, Debug, PartialEq, Eq, Structural)]
pub enum CharType {
    Alpha,
    Numeric,
    Whitespace,
    Symbolic,
    Other,
}

/// Lexing stopped at a character that belongs to no token.
#[derive(Clone, Copy, Debug, PartialEq, Eq, Structural)]
pub struct LexError {
    /// The first character of the text whose class is [`CharType::Other`].
    pub character: char,
}

/// The class of `ch`: blank, tab and newline are whitespace, the ASCII letters
/// are alphabetic, the ASCII digits are numeric, and the brackets, the four
/// arithmetic signs, the backslash and `>` are symbolic.
pub open spec fn classify(ch: char) -> CharType {
    if ch == ' ' || ch == '\t' || ch == '\n' {
        CharType::Whitespace
    } else if ('a' <= ch && ch <= 'z') || ('A' <= ch && ch <= 'Z') {
        CharType::Alpha
    } else if '0' <= ch && ch <= '9' {
        CharType::Numeric
    } else if ch == '(' || ch == ')' || ch == '{' || ch == '}' || ch == '[' || ch == ']' {
        CharType::Symbolic
    } else if ch == '+' || ch == '-' || ch == '*' || ch == '/' || ch == '\\' || ch == '>' {
        CharType::Symbolic
    } else {
        CharType::Other
    }
}

/// Whether every character of `text` has the class `class`.
pub open spec fn all_of_class(text: Seq<char>, class: CharType) -> bool {
    forall|i: int| 0 <= i < text.len() ==> classify(#[trigger] text[i]) == class
}

/// The length of the longest prefix of `text` whose characters all have the
/// class `class`.
pub open spec fn run_length(text: Seq<char>, class: CharType) -> nat
    decreases text.len(),
{
    if text.len() > 0 && classify(text[0]) == class {
        1 + run_length(text.drop_first(), class)
    } else {
        0
    }
}

impl TokenView {
    /// The characters that the token was read from.
    pub open spec fn text(self) -> Seq<char> {
        match self {
            TokenView::Whitespace(text) => text,
            TokenView::Identifier(text) => text,
            TokenView::Number(text) => text,
            TokenView::Symbol(ch) => seq![ch],
        }
    }

    /// The class that all characters of the token share.
    pub open spec fn class(self) -> CharType {
        match self {
            TokenView::Whitespace(_) => CharType::Whitespace,
            TokenView::Identifier(_) => CharType::Alpha,
            TokenView::Number(_) => CharType::Numeric,
            TokenView::Symbol(_) => CharType::Symbolic,
        }
    }

    /// A token as the lexer makes it: not empty, and of one class throughout.
    pub open spec fn well_formed(self) -> bool {
        self.text().len() > 0 && all_of_class(self.text(), self.class())
    }
}

/// The token at the start of `text`, for a text that starts with a character
/// of a class other than [`CharType::Other`]: the longest run for the three
/// run classes, one character for a symbol.
pub open spec fn leading_token(text: Seq<char>) -> TokenView {
    let class = classify(text[0]);
    let run = text.take(run_length(text, class) as int);
    match class {
        CharType::Whitespace => TokenView::Whitespace(run),
        CharType::Alpha => TokenView::Identifier(run),
        CharType::Numeric => TokenView::Number(run),
        _ => TokenView::Symbol(text[0]),
    }
}

/// The tokens of `text`, or the first character that no token can hold.
pub open spec fn tokenize(text: Seq<char>) -> Result<Seq<TokenView>, LexError>
    decreases text.len(),
    via tokenize_decreases
{
    if text.len() == 0 {
        Ok(Seq::empty())
    } else if classify(text[0]) == CharType::Other {
        Err(LexError { character: text[0] })
    } else {
        let token = leading_token(text);
        match tokenize(text.skip(token.text().len() as int)) {
            Ok(rest) => Ok(seq![token] + rest),
            Err(error) => Err(error),
        }
    }
}

#[via_fn]
proof fn tokenize_decreases(text: Seq<char>) {
    if text.len() > 0 && classify(text[0]) != CharType::Other {
        lemma_leading_token(text);
    }
}

/// The texts of `tokens`, one after the other.
pub open spec fn concat_texts(tokens: Seq<TokenView>) -> Seq<char>
    decreases tokens.len(),
{
    if tokens.len() == 0 {
        Seq::empty()
    } else {
        tokens[0].text() + concat_texts(tokens.drop_first())
    }
}

/// Whether two neighbouring tokens could have been one: both are runs of the
/// same class.
pub open spec fn mergeable(first: TokenView, second: TokenView) -> bool {
    first.class() == second.class() && first.class() != CharType::Symbolic
}

/// The index of the first character of `text` that no token can hold, or the
/// length of `text` if there is none.
pub open spec fn first_unrecognized(text: Seq<char>) -> nat
    decreases text.len(),
{
    if text.len() > 0 && classify(text[0]) != CharType::Other {
        1 + first_unrecognized(text.drop_first())
    } else {
        0
    }
}

/// `String::push` of the standard library appends one character to the end of
/// the string and leaves the characters before it as they were.
pub assume_specification[ String::push ](text: &mut String, ch: char)
    ensures
        final(text)@ == old(text)@.push(ch),
;

/// The class of `ch`.
pub fn char_type(ch: &char) -> (class: CharType)
    ensures
        class == classify(*ch),
{
    let ch = *ch;
    if ch == ' ' || ch == '\t' || ch == '\n' {
        CharType::Whitespace
    } else if ('a' <= ch && ch <= 'z') || ('A' <= ch && ch <= 'Z') {
        CharType::Alpha
    } else if '0' <= ch && ch <= '9' {
        CharType::Numeric
    } else if ch == '(' || ch == ')' || ch == '{' || ch == '}' || ch == '[' || ch == ']' {
        CharType::Symbolic
    } else if ch == '+' || ch == '-' || ch == '*' || ch == '/' || ch == '\\' || ch == '>' {
        CharType::Symbolic
    } else {
        CharType::Other
    }
}

/// A cursor over the characters of a text, with the character under the
/// cursor as lookahead.
struct Lexer {
    chars: Vec<char>,
    cursor: usize,
}

impl Lexer {
    /// The cursor lies inside the text or at its end.
    spec fn well_formed(&self) -> bool {
        self.cursor <= self.chars.len()
    }

    /// The characters from the cursor to the end of the text.
    spec fn remaining(&self) -> Seq<char> {
        self.chars@.skip(self.cursor as int)
    }

    /// A lexer at the start of `string`.
    fn new(string: &str) -> (lexer: Lexer)
        ensures
            lexer.well_formed(),
            lexer.remaining() == string@,
    {
        let mut chars: Vec<char> = Vec::new();
        for ch in iter: string.chars()
            invariant
                iter.seq() == string@,
                chars@ == iter.seq().take(iter.index()),
        {
            chars.push(ch);
        }
        Lexer { chars, cursor: 0 }
    }

    /// Whether the cursor has reached the end of the text.
    fn is_eos(&self) -> (at_end: bool)
        requires
            self.well_formed(),
        ensures
            at_end == (self.remaining().len() == 0),
    {
        self.cursor >= self.chars.len()
    }

    /// The character under the cursor, if there is one.
    fn pos(&self) -> (head: Option<char>)
        requires
            self.well_formed(),
        ensures
            head == if self.remaining().len() > 0 {
                Some(self.remaining()[0])
            } else {
                None
            },
    {
        if self.cursor < self.chars.len() {
            Some(self.chars[self.cursor])
        } else {
            None
        }
    }

    /// Moves the cursor one character on; at the end of the text it stays.
    fn advance(&mut self)
        requires
            old(self).well_formed(),
        ensures
            final(self).well_formed(),
            final(self).remaining() == if old(self).remaining().len() > 0 {
                old(self).remaining().drop_first()
            } else {
                old(self).remaining()
            },
    {
        if self.cursor < self.chars.len() {
            self.cursor = self.cursor + 1;
        }
    }

    /// The character under the cursor, if it has the class `class`.
    fn match_head(&self, class: CharType) -> (head: Option<char>)
        requires
            self.well_formed(),
        ensures
            head == if self.remaining().len() > 0 && classify(self.remaining()[0]) == class {
                Some(self.remaining()[0])
            } else {
                None
            },
    {
        match self.pos() {
            Some(ch) => {
                if char_type(&ch) == class {
                    Some(ch)
                } else {
                    None
                }
            },
            None => None,
        }
    }

    /// Reads the longest run of characters of the class `class` at the cursor,
    /// which may be empty.
    fn read_while(&mut self, class: CharType) -> (run: String)
        requires
            old(self).well_formed(),
        ensures
            final(self).well_formed(),
            run@ == old(self).remaining().take(run_length(old(self).remaining(), class) as int),
            final(self).remaining() == old(self).remaining().skip(
                run_length(old(self).remaining(), class) as int,
            ),
    {
        let mut buf = String::new();
        self.read_while_mut(&mut buf, class);
        buf
    }

    /// Moves the longest run of characters of the class `class` at the cursor
    /// to the end of `buf`.
    fn read_while_mut(&mut self, buf: &mut String, class: CharType)
        requires
            old(self).well_formed(),
        ensures
            final(self).well_formed(),
            final(buf)@ == old(buf)@ + old(self).remaining().take(
                run_length(old(self).remaining(), class) as int,
            ),
            final(self).remaining() == old(self).remaining().skip(
                run_length(old(self).remaining(), class) as int,
            ),
    {
        let ghost start = self.remaining();
        let ghost count: int = 0;
        proof {
            assert(start.skip(0) == start);
            assert(start.take(0) == Seq::<char>::empty());
        }
        loop
            invariant
                self.well_formed(),
                0 <= count <= start.len(),
                self.remaining() == start.skip(count),
                buf@ == old(buf)@ + start.take(count),
                run_length(start, class) == count + run_length(start.skip(count), class),
            ensures
                self.well_formed(),
                count == run_length(start, class),
                self.remaining() == start.skip(count),
                buf@ == old(buf)@ + start.take(count),
            decreases start.len() - count,
        {
            match self.match_head(class) {
                Some(ch) => {
                    buf.push(ch);
                    self.advance();
                    proof {
                        assert(start.skip(count).drop_first() == start.skip(count + 1));
                        assert(start.take(count).push(ch) == start.take(count + 1));
                        count = count + 1;
                    }
                },
                None => {
                    break;
                },
            }
        }
    }

    /// Reads the longest run of characters of the class `class` at the cursor,
    /// or nothing if the character under the cursor is not of that class.
    fn read_multiple(&mut self, class: CharType) -> (run: Option<String>)
        requires
            old(self).well_formed(),
        ensures
            final(self).well_formed(),
            run is Some <==> old(self).remaining().len() > 0 && classify(old(self).remaining()[0])
                == class,
            run is None ==> final(self).remaining() == old(self).remaining(),
            run matches Some(text) ==> {
                &&& text@ == old(self).remaining().take(
                    run_length(old(self).remaining(), class) as int,
                )
                &&& final(self).remaining() == old(self).remaining().skip(text@.len() as int)
            },
    {
        proof {
            lemma_run_length(self.remaining(), class);
        }
        match self.match_head(class) {
            Some(_) => Some(self.read_while(class)),
            None => None,
        }
    }
}

/// Reads an identifier: the longest run of alphabetic characters at the cursor.
fn lex_identifier(lexer: &mut Lexer) -> (run: Option<String>)
    requires
        old(lexer).well_formed(),
    ensures
        final(lexer).well_formed(),
        run is Some <==> old(lexer).remaining().len() > 0 && classify(old(lexer).remaining()[0])
            == CharType::Alpha,
        run is None ==> final(lexer).remaining() == old(lexer).remaining(),
        run matches Some(text) ==> {
            &&& TokenView::Identifier(text@) == leading_token(old(lexer).remaining())
            &&& final(lexer).remaining() == old(lexer).remaining().skip(text@.len() as int)
        },
{
    lexer.read_multiple(CharType::Alpha)
}

/// Reads the longest run of whitespace at the cursor.
fn lex_whitespace(lexer: &mut Lexer) -> (run: Option<String>)
    requires
        old(lexer).well_formed(),
    ensures
        final(lexer).well_formed(),
        run is Some <==> old(lexer).remaining().len() > 0 && classify(old(lexer).remaining()[0])
            == CharType::Whitespace,
        run is None ==> final(lexer).remaining() == old(lexer).remaining(),
        run matches Some(text) ==> {
            &&& TokenView::Whitespace(text@) == leading_token(old(lexer).remaining())
            &&& final(lexer).remaining() == old(lexer).remaining().skip(text@.len() as int)
        },
{
    lexer.read_multiple(CharType::Whitespace)
}

/// Reads a number: the longest run of digits at the cursor.
fn lex_number(lexer: &mut Lexer) -> (run: Option<String>)
    requires
        old(lexer).well_formed(),
    ensures
        final(lexer).well_formed(),
        run is Some <==> old(lexer).remaining().len() > 0 && classify(old(lexer).remaining()[0])
            == CharType::Numeric,
        run is None ==> final(lexer).remaining() == old(lexer).remaining(),
        run matches Some(text) ==> {
            &&& TokenView::Number(text@) == leading_token(old(lexer).remaining())
            &&& final(lexer).remaining() == old(lexer).remaining().skip(text@.len() as int)
        },
{
    lexer.read_multiple(CharType::Numeric)
}

/// Reads one symbolic character.
fn lex_symbol(lexer: &mut Lexer) -> (symbol: Option<char>)
    requires
        old(lexer).well_formed(),
    ensures
        final(lexer).well_formed(),
        symbol is Some <==> old(lexer).remaining().len() > 0 && classify(
            old(lexer).remaining()[0],
        ) == CharType::Symbolic,
        symbol is None ==> final(lexer).remaining() == old(lexer).remaining(),
        symbol matches Some(ch) ==> {
            &&& TokenView::Symbol(ch) == leading_token(old(lexer).remaining())
            &&& final(lexer).remaining() == old(lexer).remaining().skip(1)
        },
{
    match lexer.match_head(CharType::Symbolic) {
        Some(ch) => {
            lexer.advance();
            Some(ch)
        },
        None => None,
    }
}

/// Reads the token at the cursor, trying whitespace, identifier, number and
/// symbol in this order. Where none of them starts at the cursor, that is at
/// the end of the text and at a character of no class, the lexer stays where
/// it is.
fn lex(lexer: &mut Lexer) -> (token: Option<Token>)
    requires
        old(lexer).well_formed(),
    ensures
        final(lexer).well_formed(),
        token is Some <==> old(lexer).remaining().len() > 0 && classify(old(lexer).remaining()[0])
            != CharType::Other,
        token is None ==> final(lexer).remaining() == old(lexer).remaining(),
        token matches Some(token) ==> {
            &&& token@ == leading_token(old(lexer).remaining())
            &&& final(lexer).remaining() == old(lexer).remaining().skip(
                token@.text().len() as int,
            )
        },
{
    if let Some(text) = lex_whitespace(lexer) {
        return Some(Token::Whitespace(text));
    }
    if let Some(text) = lex_identifier(lexer) {
        return Some(Token::Identifier(text));
    }
    if let Some(text) = lex_number(lexer) {
        return Some(Token::Number(text));
    }
    if let Some(ch) = lex_symbol(lexer) {
        return Some(Token::Symbol(ch));
    }
    None
}

/// Reads tokens until the end of the text, or until a character that no token
/// can hold.
fn lex_all(lexer: &mut Lexer) -> (outcome: Result<Vec<Token>, LexError>)
    requires
        old(lexer).well_formed(),
    ensures
        final(lexer).well_formed(),
        outcome matches Ok(tokens) ==> tokenize(old(lexer).remaining()) == Ok::<
            Seq<TokenView>,
            LexError,
        >(tokens.deep_view()) && final(lexer).remaining().len() == 0,
        outcome matches Err(error) ==> tokenize(old(lexer).remaining()) == Err::<
            Seq<TokenView>,
            LexError,
        >(error),
{
    let mut buf: Vec<Token> = Vec::new();
    let ghost start = lexer.remaining();
    while !lexer.is_eos()
        invariant
            lexer.well_formed(),
            start == old(lexer).remaining(),
            tokenize(start) == match tokenize(lexer.remaining()) {
                Ok(rest) => Ok::<Seq<TokenView>, LexError>(buf.deep_view() + rest),
                Err(error) => Err(error),
            },
        decreases lexer.remaining().len(),
    {
        let ghost before = lexer.remaining();
        let ghost seen = buf.deep_view();
        proof {
            if classify(before[0]) != CharType::Other {
                lemma_leading_token(before);
            }
        }
        match lex(lexer) {
            Some(token) => {
                buf.push(token);
                proof {
                    if let Ok(rest) = tokenize(lexer.remaining()) {
                        assert(buf.deep_view() + rest == seen + (seq![token@] + rest));
                    }
                }
            },
            None => {
                let error = LexError { character: lexer.pos().unwrap() };
                assert(tokenize(before) == Err::<Seq<TokenView>, LexError>(error));
                return Err(error);
            },
        }
    }
    proof {
        assert(buf.deep_view() + Seq::<TokenView>::empty() == buf.deep_view());
    }
    Ok(buf)
}

/// The tokens of `string`, in the order of the text and with its whitespace.
///
/// Lexing succeeds exactly when every character of `string` has a class other
/// than [`CharType::Other`]; otherwise the first character that has not is
/// reported. The tokens of a text spell it: their texts, put together, are
/// `string`.
pub fn lex_str(string: &str) -> (outcome: Result<Vec<Token>, LexError>)
    ensures
        outcome matches Ok(tokens) ==> tokenize(string@) == Ok::<Seq<TokenView>, LexError>(
            tokens.deep_view(),
        ),
        outcome matches Err(error) ==> tokenize(string@) == Err::<Seq<TokenView>, LexError>(error),
        outcome matches Ok(tokens) ==> concat_texts(tokens.deep_view()) == string@,
        outcome matches Ok(tokens) ==> forall|i: int|
            0 <= i < tokens.len() ==> (#[trigger] tokens.deep_view()[i]).well_formed(),
        outcome matches Ok(tokens) ==> forall|i: int|
            0 <= i < tokens.len() - 1 ==> !mergeable(
                #[trigger] tokens.deep_view()[i],
                tokens.deep_view()[i + 1],
            ),
        outcome is Ok <==> first_unrecognized(string@) == string@.len(),
        outcome matches Err(error) ==> first_unrecognized(string@) < string@.len()
            && error.character == string@[first_unrecognized(string@) as int],
{
    let mut lexer = Lexer::new(string);
    proof {
        lemma_tokenize_lossless(string@);
        lemma_tokenize_maximal(string@);
        lemma_tokenize_outcome(string@);
    }
    lex_all(&mut lexer)
}

/// A run ends inside the text, covers only characters of its class, and is
/// followed by a character of another class or by the end of the text.
pub proof fn lemma_run_length(text: Seq<char>, class: CharType)
    ensures
        run_length(text, class) <= text.len(),
        all_of_class(text.take(run_length(text, class) as int), class),
        run_length(text, class) < text.len() ==> classify(text[run_length(text, class) as int])
            != class,
    decreases text.len(),
{
    if text.len() > 0 && classify(text[0]) == class {
        let tail = text.drop_first();
        lemma_run_length(tail, class);
        let n = run_length(tail, class) as int;
        assert forall|i: int| 0 <= i < n + 1 implies classify(
            #[trigger] text.take(n + 1)[i],
        ) == class by {
            if i > 0 {
                assert(text.take(n + 1)[i] == tail.take(n)[i - 1]);
            }
        }
        if n + 1 < text.len() {
            assert(text[n + 1] == tail[n]);
        }
    }
}

/// The leading token of a text that starts with a recognized character is well
/// formed, spells a prefix of the text, and is as long as it can be.
pub proof fn lemma_leading_token(text: Seq<char>)
    requires
        text.len() > 0,
        classify(text[0]) != CharType::Other,
    ensures
        leading_token(text).well_formed(),
        leading_token(text).class() == classify(text[0]),
        0 < leading_token(text).text().len() <= text.len(),
        leading_token(text).text() == text.take(leading_token(text).text().len() as int),
        leading_token(text).class() != CharType::Symbolic && leading_token(text).text().len()
            < text.len() ==> classify(text[leading_token(text).text().len() as int])
            != leading_token(text).class(),
{
    let class = classify(text[0]);
    lemma_run_length(text, class);
    if class == CharType::Symbolic {
        assert(text.take(1) =~= seq![text[0]]);
    }
}

/// Lexing loses nothing: the texts of the tokens of `text`, put together, are
/// `text`.
pub proof fn lemma_tokenize_lossless(text: Seq<char>)
    ensures
        tokenize(text) matches Ok(tokens) ==> concat_texts(tokens) == text,
    decreases text.len(),
{
    if text.len() > 0 && classify(text[0]) != CharType::Other {
        lemma_leading_token(text);
        let token = leading_token(text);
        let n = token.text().len() as int;
        lemma_tokenize_lossless(text.skip(n));
        if let Ok(rest) = tokenize(text.skip(n)) {
            let tokens = seq![token] + rest;
            assert(tokens.drop_first() =~= rest);
            assert(text.take(n) + text.skip(n) =~= text);
        }
    }
}

/// Every token that lexing makes is well formed, and no two neighbours could
/// have been one longer token.
pub proof fn lemma_tokenize_maximal(text: Seq<char>)
    ensures
        tokenize(text) matches Ok(tokens) ==> {
            &&& forall|i: int| 0 <= i < tokens.len() ==> (#[trigger] tokens[i]).well_formed()
            &&& forall|i: int|
                0 <= i < tokens.len() - 1 ==> !mergeable(#[trigger] tokens[i], tokens[i + 1])
            &&& tokens.len() > 0 ==> tokens[0] == leading_token(text)
        },
    decreases text.len(),
{
    if text.len() > 0 && classify(text[0]) != CharType::Other {
        lemma_leading_token(text);
        let token = leading_token(text);
        let n = token.text().len() as int;
        let tail = text.skip(n);
        lemma_tokenize_maximal(tail);
        if let Ok(rest) = tokenize(tail) {
            let tokens = seq![token] + rest;
            assert forall|i: int| 0 <= i < tokens.len() implies (#[trigger] tokens[i]).well_formed() by {
                if i > 0 {
                    assert(tokens[i] == rest[i - 1]);
                }
            }
            assert forall|i: int| 0 <= i < tokens.len() - 1 implies !mergeable(
                #[trigger] tokens[i],
                tokens[i + 1],
            ) by {
                if i == 0 {
                    assert(tokens[1] == rest[0]);
                    assert(tail.len() > 0);
                    assert(tail[0] == text[n]);
                    if classify(tail[0]) != CharType::Other {
                        lemma_leading_token(tail);
                    }
                } else {
                    assert(tokens[i] == rest[i - 1]);
                    assert(tokens[i + 1] == rest[i]);
                }
            }
        }
    }
}

/// A prefix of `length` characters of the class `class`, which a character of
/// another class or the end of the text follows, is the run of that class.
pub proof fn lemma_run_length_is(text: Seq<char>, class: CharType, length: int)
    requires
        0 <= length <= text.len(),
        forall|i: int| 0 <= i < length ==> classify(#[trigger] text[i]) == class,
        length < text.len() ==> classify(text[length]) != class,
    ensures
        run_length(text, class) == length,
    decreases length,
{
    if length > 0 {
        let tail = text.drop_first();
        assert forall|i: int| 0 <= i < length - 1 implies classify(#[trigger] tail[i])
            == class by {
            assert(tail[i] == text[i + 1]);
        }
        if length < text.len() {
            assert(tail[length - 1] == text[length]);
        }
        lemma_run_length_is(tail, class, length - 1);
    }
}

/// There is one way only to cut a text into tokens: well-formed tokens that
/// spell `text`, and of which no two neighbours could have been one, are the
/// tokens of `text`.
pub proof fn lemma_tokenize_unique(text: Seq<char>, tokens: Seq<TokenView>)
    requires
        forall|i: int| 0 <= i < tokens.len() ==> (#[trigger] tokens[i]).well_formed(),
        forall|i: int|
            0 <= i < tokens.len() - 1 ==> !mergeable(#[trigger] tokens[i], tokens[i + 1]),
        concat_texts(tokens) == text,
    ensures
        tokenize(text) == Ok::<Seq<TokenView>, LexError>(tokens),
    decreases tokens.len(),
{
    if tokens.len() > 0 {
        let first = tokens[0];
        let rest = tokens.drop_first();
        let tail = concat_texts(rest);
        let length = first.text().len() as int;
        assert(first.well_formed());
        assert(text[0] == first.text()[0]);
        assert forall|i: int| 0 <= i < length implies classify(#[trigger] text[i])
            == first.class() by {
            assert(text[i] == first.text()[i]);
        }
        if rest.len() > 0 {
            assert(rest[0] == tokens[1]);
            assert(rest[0].well_formed());
            assert(!mergeable(tokens[0], tokens[1]));
            assert(tail[0] == rest[0].text()[0]);
            assert(text[length] == tail[0]);
        }
        if first.class() != CharType::Symbolic {
            lemma_run_length_is(text, first.class(), length);
        }
        assert(text.take(length) == first.text());
        assert(leading_token(text) == first);
        assert(text.skip(length) == tail);
        assert forall|i: int| 0 <= i < rest.len() implies (#[trigger] rest[i]).well_formed() by {
            assert(rest[i] == tokens[i + 1]);
        }
        assert forall|i: int| 0 <= i < rest.len() - 1 implies !mergeable(
            #[trigger] rest[i],
            rest[i + 1],
        ) by {
            assert(rest[i] == tokens[i + 1]);
            assert(rest[i + 1] == tokens[i + 2]);
        }
        lemma_tokenize_unique(tail, rest);
        assert(seq![first] + rest == tokens);
    } else {
        assert(tokens == Seq::<TokenView>::empty());
    }
}

/// Lexing succeeds exactly on the texts made of recognized characters, and
/// otherwise reports the first character that is not.
pub proof fn lemma_tokenize_outcome(text: Seq<char>)
    ensures
        first_unrecognized(text) <= text.len(),
        forall|i: int|
            0 <= i < first_unrecognized(text) ==> classify(#[trigger] text[i]) != CharType::Other,
        first_unrecognized(text) < text.len() ==> classify(text[first_unrecognized(text) as int])
            == CharType::Other,
        tokenize(text) is Ok <==> first_unrecognized(text) == text.len(),
        tokenize(text) matches Err(error) ==> error.character == text[first_unrecognized(
            text,
        ) as int],
    decreases text.len(),
{
    lemma_first_unrecognized(text);
    if text.len() > 0 && classify(text[0]) != CharType::Other {
        lemma_leading_token(text);
        let n = leading_token(text).text().len() as int;
        lemma_tokenize_outcome(text.skip(n));
        assert forall|i: int| 0 <= i < n implies classify(#[trigger] text[i])
            != CharType::Other by {
            assert(text[i] == leading_token(text).text()[i]);
        }
        lemma_first_unrecognized_skip(text, n);
    }
}

proof fn lemma_first_unrecognized(text: Seq<char>)
    ensures
        first_unrecognized(text) <= text.len(),
        forall|i: int|
            0 <= i < first_unrecognized(text) ==> classify(#[trigger] text[i]) != CharType::Other,
        first_unrecognized(text) < text.len() ==> classify(text[first_unrecognized(text) as int])
            == CharType::Other,
    decreases text.len(),
{
    if text.len() > 0 && classify(text[0]) != CharType::Other {
        let tail = text.drop_first();
        lemma_first_unrecognized(tail);
        let n = first_unrecognized(tail) as int;
        assert forall|i: int| 0 <= i < n + 1 implies classify(#[trigger] text[i])
            != CharType::Other by {
            if i > 0 {
                assert(text[i] == tail[i - 1]);
            }
        }
        if n + 1 < text.len() {
            assert(text[n + 1] == tail[n]);
        }
    }
}

proof fn lemma_first_unrecognized_skip(text: Seq<char>, n: int)
    requires
        0 <= n <= text.len(),
        forall|i: int| 0 <= i < n ==> classify(#[trigger] text[i]) != CharType::Other,
    ensures
        first_unrecognized(text) == n + first_unrecognized(text.skip(n)),
    decreases n,
{
    if n > 0 {
        let tail = text.drop_first();
        assert forall|i: int| 0 <= i < n - 1 implies classify(#[trigger] tail[i])
            != CharType::Other by {
            assert(tail[i] == text[i + 1]);
        }
        lemma_first_unrecognized_skip(tail, n - 1);
        assert(tail.skip(n - 1) =~= text.skip(n));
    } else {
        assert(text.skip(0) =~= text);
    }
}

} // verus!
