//! The lexer: turns source text into a flat sequence of positioned tokens.
//!
//! `spec_lex` is the mathematical model of the scan: a single left-to-right
//! pass over the code points of the input.  `Lexer::parse` is proved to
//! produce exactly the tokens of that model, or the model's failure position
//! when a string literal is left unterminated.

use vstd::prelude::*;
use vstd::string::*;

verus! {

/// Classification of a token.
#[derive(Clone, Copy, Debug, PartialEq, Eq, Structural)]
pub enum TokenType {
    LParen,
    RParen,
    LSquare,
    RSquare,
    SingleQuote,
    StringLiteral,
    Word,
    NumberLiteral,
    Unknown,
    Comment,
}

/// A source position: 1-based line, column counted by code-point advance.
#[derive(Clone, Copy, Debug, PartialEq, Eq, Structural)]
pub struct TokenPosition {
    pub line: usize,
    pub col: usize,
}

/// One token: its lexeme, its kind, and where it starts and ends.
#[derive(Clone, Debug, PartialEq)]
pub struct Token {
    pub value: String,
    pub token_type: TokenType,
    pub start: TokenPosition,
    pub end: TokenPosition,
}

/// A source position in specifications, over unbounded integers.
pub ghost struct SpecPos {
    pub line: int,
    pub col: int,
}

/// The mathematical image of a `Token`.
pub ghost struct SpecToken {
    pub value: Seq<char>,
    pub token_type: TokenType,
    pub start: SpecPos,
    pub end: SpecPos,
}

impl View for Token {
    type V = SpecToken;

    open spec fn view(&self) -> SpecToken {
        SpecToken {
            value: self.value@,
            token_type: self.token_type,
            start: SpecPos { line: self.start.line as int, col: self.start.col as int },
            end: SpecPos { line: self.end.line as int, col: self.end.col as int },
        }
    }
}

/// The image of a token sequence.
pub open spec fn tokens_view(ts: Seq<Token>) -> Seq<SpecToken> {
    ts.map_values(|t: Token| t@)
}

/// Failure of the lexer or of `TokenType::from_char`.
#[derive(Clone, Debug, PartialEq)]
pub enum LexError {
    /// A `"` was opened and the input ended before the closing `"`.
    UnterminatedString { line: usize, col: usize },
    /// `TokenType::from_char` was handed a character with no fixed kind.
    NotSingleCharToken { c: char },
}

/// Whether Unicode classes this character as numeric.
/// Named result of `char::is_numeric`, which depends on the character alone.
pub uninterp spec fn char_is_numeric(c: char) -> bool;

/// Whether Unicode classes this character as alphabetic.
/// Named result of `char::is_alphabetic`, which depends on the character alone.
pub uninterp spec fn char_is_alphabetic(c: char) -> bool;

/// Relies on `char::is_numeric`: a pure classification of the character.
#[verifier::external_body]
fn exec_char_is_numeric(c: char) -> (r: bool)
    ensures
        r == char_is_numeric(c),
{
    c.is_numeric()
}

/// Relies on `char::is_alphabetic`: a pure classification of the character.
#[verifier::external_body]
fn exec_char_is_alphabetic(c: char) -> (r: bool)
    ensures
        r == char_is_alphabetic(c),
{
    c.is_alphabetic()
}

/// Relies on `char::is_alphanumeric`, documented to hold exactly when
/// `char::is_alphabetic` or `char::is_numeric` holds.
#[verifier::external_body]
fn exec_char_is_alphanumeric(c: char) -> (r: bool)
    ensures
        r == (char_is_alphabetic(c) || char_is_numeric(c)),
{
    c.is_alphanumeric()
}

/// The five characters that form a token by themselves.
pub open spec fn is_single_char_token(c: char) -> bool {
    c == '(' || c == ')' || c == '[' || c == ']' || c == '\''
}

/// The kind of a single-character token.
pub open spec fn single_char_token_type(c: char) -> TokenType {
    if c == '(' {
        TokenType::LParen
    } else if c == ')' {
        TokenType::RParen
    } else if c == '[' {
        TokenType::LSquare
    } else if c == ']' {
        TokenType::RSquare
    } else {
        TokenType::SingleQuote
    }
}

/// Characters that may appear in a word besides letters and digits.
pub open spec fn spec_is_word_symbol(c: char) -> bool {
    c == '+' || c == '-' || c == '/' || c == '*' || c == '_' || c == '=' || c == '?' || c == '!'
        || c == '<' || c == '>'
}

/// A character that may continue a number token: letters and digits, greedily.
pub open spec fn alnum_char(c: char) -> bool {
    char_is_alphabetic(c) || char_is_numeric(c)
}

/// A character that may continue a word token.
pub open spec fn word_char(c: char) -> bool {
    spec_is_word_symbol(c) || alnum_char(c)
}

/// Length of the longest prefix of `cs` free of the character `stop`.
pub open spec fn run_len_not(cs: Seq<char>, stop: char) -> nat
    decreases cs.len(),
{
    if cs.len() == 0 {
        0
    } else if cs[0] != stop {
        1 + run_len_not(cs.drop_first(), stop)
    } else {
        0
    }
}

/// Length of the longest prefix of `cs` of letters and digits.
pub open spec fn run_len_alnum(cs: Seq<char>) -> nat
    decreases cs.len(),
{
    if cs.len() == 0 {
        0
    } else if alnum_char(cs[0]) {
        1 + run_len_alnum(cs.drop_first())
    } else {
        0
    }
}

/// Length of the longest prefix of `cs` of word characters.
pub open spec fn run_len_word(cs: Seq<char>) -> nat
    decreases cs.len(),
{
    if cs.len() == 0 {
        0
    } else if word_char(cs[0]) {
        1 + run_len_word(cs.drop_first())
    } else {
        0
    }
}

pub proof fn lemma_run_len_not_le(cs: Seq<char>, stop: char)
    ensures
        run_len_not(cs, stop) <= cs.len(),
    decreases cs.len(),
{
    if cs.len() > 0 && cs[0] != stop {
        lemma_run_len_not_le(cs.drop_first(), stop);
    }
}

pub proof fn lemma_run_len_alnum_le(cs: Seq<char>)
    ensures
        run_len_alnum(cs) <= cs.len(),
    decreases cs.len(),
{
    if cs.len() > 0 && alnum_char(cs[0]) {
        lemma_run_len_alnum_le(cs.drop_first());
    }
}

pub proof fn lemma_run_len_word_le(cs: Seq<char>)
    ensures
        run_len_word(cs) <= cs.len(),
    decreases cs.len(),
{
    if cs.len() > 0 && word_char(cs[0]) {
        lemma_run_len_word_le(cs.drop_first());
    }
}

/// A prefix free of `stop` up to `k`, with `stop` (or the end) at `k`,
/// pins `run_len_not` down to exactly `k`.
pub proof fn lemma_run_len_not_is(cs: Seq<char>, stop: char, k: nat)
    requires
        k <= cs.len(),
        forall|m: int| 0 <= m < k ==> cs[m] != stop,
        k < cs.len() ==> cs[k as int] == stop,
    ensures
        run_len_not(cs, stop) == k,
    decreases cs.len(),
{
    if cs.len() > 0 && cs[0] != stop {
        lemma_run_len_not_is(cs.drop_first(), stop, (k - 1) as nat);
    }
}

pub proof fn lemma_run_len_alnum_is(cs: Seq<char>, k: nat)
    requires
        k <= cs.len(),
        forall|m: int| 0 <= m < k ==> alnum_char(cs[m]),
        k < cs.len() ==> !alnum_char(cs[k as int]),
    ensures
        run_len_alnum(cs) == k,
    decreases cs.len(),
{
    if cs.len() > 0 && alnum_char(cs[0]) {
        lemma_run_len_alnum_is(cs.drop_first(), (k - 1) as nat);
    }
}

pub proof fn lemma_run_len_word_is(cs: Seq<char>, k: nat)
    requires
        k <= cs.len(),
        forall|m: int| 0 <= m < k ==> word_char(cs[m]),
        k < cs.len() ==> !word_char(cs[k as int]),
    ensures
        run_len_word(cs) == k,
    decreases cs.len(),
{
    if cs.len() > 0 && word_char(cs[0]) {
        lemma_run_len_word_is(cs.drop_first(), (k - 1) as nat);
    }
}

/// The model of the scan: tokens of `cs`, entered at position `(line, col)`,
/// or the position at which an unterminated string literal gave out.
///
/// `col` is the column of the last consumed code point, so the next one
/// reads at column `col + 1`; single-character and unknown tokens record
/// their start one column earlier than the multi-character kinds, exactly
/// as the scanner advances its counters.
pub open spec fn spec_lex(cs: Seq<char>, line: int, col: int) -> Result<Seq<SpecToken>, SpecPos>
    decreases cs.len(),
    via spec_lex_decreases
{
    if cs.len() == 0 {
        Ok(Seq::empty())
    } else {
        let c = cs[0];
        if c == ' ' {
            spec_lex(cs.drop_first(), line, col + 1)
        } else if c == '\n' {
            spec_lex(cs.drop_first(), line + 1, 0)
        } else if is_single_char_token(c) {
            lex_prepend(
                SpecToken {
                    value: seq![c],
                    token_type: single_char_token_type(c),
                    start: SpecPos { line, col },
                    end: SpecPos { line, col: col + 1 },
                },
                spec_lex(cs.drop_first(), line, col + 1),
            )
        } else if c == '"' {
            let k = run_len_not(cs.drop_first(), '"');
            if k == cs.len() - 1 {
                Err(SpecPos { line, col: col + 1 + k })
            } else {
                lex_prepend(
                    SpecToken {
                        value: cs.take((k + 2) as int),
                        token_type: TokenType::StringLiteral,
                        start: SpecPos { line, col: col + 1 },
                        end: SpecPos { line, col: col + 2 + k },
                    },
                    spec_lex(cs.skip((k + 2) as int), line, col + 2 + k),
                )
            }
        } else if c == ';' {
            let k = run_len_not(cs.drop_first(), '\n');
            lex_prepend(
                SpecToken {
                    value: cs.take((k + 1) as int),
                    token_type: TokenType::Comment,
                    start: SpecPos { line, col: col + 1 },
                    end: SpecPos { line, col: col + 1 + k },
                },
                spec_lex(cs.skip((k + 1) as int), line, col + 1 + k),
            )
        } else if char_is_numeric(c) || ((c == '-' || c == '+') && cs.len() > 1 && char_is_numeric(
            cs[1],
        )) {
            let k = run_len_alnum(cs.drop_first());
            lex_prepend(
                SpecToken {
                    value: cs.take((k + 1) as int),
                    token_type: TokenType::NumberLiteral,
                    start: SpecPos { line, col: col + 1 },
                    end: SpecPos { line, col: col + 1 + k },
                },
                spec_lex(cs.skip((k + 1) as int), line, col + 1 + k),
            )
        } else if char_is_alphabetic(c) || spec_is_word_symbol(c) {
            let k = run_len_word(cs.drop_first());
            lex_prepend(
                SpecToken {
                    value: cs.take((k + 1) as int),
                    token_type: TokenType::Word,
                    start: SpecPos { line, col: col + 1 },
                    end: SpecPos { line, col: col + 1 + k },
                },
                spec_lex(cs.skip((k + 1) as int), line, col + 1 + k),
            )
        } else {
            lex_prepend(
                SpecToken {
                    value: seq![c],
                    token_type: TokenType::Unknown,
                    start: SpecPos { line, col },
                    end: SpecPos { line, col: col + 1 },
                },
                spec_lex(cs.drop_first(), line, col + 1),
            )
        }
    }
}

#[via_fn]
proof fn spec_lex_decreases(cs: Seq<char>, line: int, col: int) {
    if cs.len() > 0 {
        lemma_run_len_not_le(cs.drop_first(), '"');
        lemma_run_len_not_le(cs.drop_first(), '\n');
        lemma_run_len_alnum_le(cs.drop_first());
        lemma_run_len_word_le(cs.drop_first());
    }
}

/// Prefix one token onto the outcome of the rest of the scan.
pub open spec fn lex_prepend(t: SpecToken, r: Result<Seq<SpecToken>, SpecPos>) -> Result<
    Seq<SpecToken>,
    SpecPos,
> {
    match r {
        Ok(ts) => Ok(seq![t] + ts),
        Err(p) => Err(p),
    }
}

/// Append already-produced tokens in front of the outcome of the rest.
pub open spec fn lex_concat(pre: Seq<SpecToken>, r: Result<Seq<SpecToken>, SpecPos>) -> Result<
    Seq<SpecToken>,
    SpecPos,
> {
    match r {
        Ok(ts) => Ok(pre + ts),
        Err(p) => Err(p),
    }
}

/// Source order on positions: `a` comes no later than `b`.
pub open spec fn pos_le(a: SpecPos, b: SpecPos) -> bool {
    a.line < b.line || (a.line == b.line && a.col <= b.col)
}

/// The three ordering facts of a token sequence scanned from `entry`:
/// each token ends no earlier than it starts, consecutive tokens do not go
/// backwards, and the first token starts no earlier than `entry`.
pub open spec fn tokens_monotonic_from(ts: Seq<SpecToken>, entry: SpecPos) -> bool {
    &&& forall|i: int| 0 <= i < ts.len() ==> pos_le(#[trigger] ts[i].start, ts[i].end)
    &&& forall|i: int| 0 <= i < ts.len() - 1 ==> pos_le(#[trigger] ts[i].end, ts[i + 1].start)
    &&& ts.len() > 0 ==> pos_le(entry, ts[0].start)
}

proof fn lemma_mono_cons(t: SpecToken, rest: Seq<SpecToken>, entry: SpecPos, next: SpecPos)
    requires
        pos_le(entry, t.start),
        pos_le(t.start, t.end),
        pos_le(t.end, next),
        tokens_monotonic_from(rest, next),
    ensures
        tokens_monotonic_from(seq![t] + rest, entry),
{
    let ts = seq![t] + rest;
    assert forall|i: int| 0 <= i < ts.len() implies pos_le(#[trigger] ts[i].start, ts[i].end) by {
        if i > 0 {
            assert(ts[i] == rest[i - 1]);
        }
    }
    assert forall|i: int| 0 <= i < ts.len() - 1 implies pos_le(
        #[trigger] ts[i].end,
        ts[i + 1].start,
    ) by {
        if i == 0 {
            assert(ts[1] == rest[0]);
        } else {
            assert(ts[i] == rest[i - 1]);
            assert(ts[i + 1] == rest[i]);
        }
    }
}

/// Law: a successful scan yields tokens in source order — positions are
/// monotonically non-decreasing along the token sequence, and no token
/// starts before the position the scan was entered at.
pub proof fn lemma_lex_positions_monotonic(cs: Seq<char>, line: int, col: int)
    requires
        spec_lex(cs, line, col) is Ok,
    ensures
        tokens_monotonic_from(spec_lex(cs, line, col)->Ok_0, SpecPos { line, col }),
    decreases cs.len(),
{
    if cs.len() == 0 {
    } else {
        let c = cs[0];
        let entry = SpecPos { line, col };
        lemma_run_len_not_le(cs.drop_first(), '"');
        lemma_run_len_not_le(cs.drop_first(), '\n');
        lemma_run_len_alnum_le(cs.drop_first());
        lemma_run_len_word_le(cs.drop_first());
        if c == ' ' {
            lemma_lex_positions_monotonic(cs.drop_first(), line, col + 1);
            let ts = spec_lex(cs.drop_first(), line, col + 1)->Ok_0;
            if ts.len() > 0 {
                assert(pos_le(entry, ts[0].start));
            }
        } else if c == '\n' {
            lemma_lex_positions_monotonic(cs.drop_first(), line + 1, 0);
            let ts = spec_lex(cs.drop_first(), line + 1, 0)->Ok_0;
            if ts.len() > 0 {
                assert(pos_le(entry, ts[0].start));
            }
        } else if is_single_char_token(c) {
            lemma_lex_positions_monotonic(cs.drop_first(), line, col + 1);
            let t = SpecToken {
                value: seq![c],
                token_type: single_char_token_type(c),
                start: SpecPos { line, col },
                end: SpecPos { line, col: col + 1 },
            };
            lemma_mono_cons(
                t,
                spec_lex(cs.drop_first(), line, col + 1)->Ok_0,
                entry,
                SpecPos { line, col: col + 1 },
            );
        } else if c == '"' {
            let k = run_len_not(cs.drop_first(), '"');
            let t = SpecToken {
                value: cs.take((k + 2) as int),
                token_type: TokenType::StringLiteral,
                start: SpecPos { line, col: col + 1 },
                end: SpecPos { line, col: col + 2 + k },
            };
            lemma_lex_positions_monotonic(cs.skip((k + 2) as int), line, col + 2 + k);
            lemma_mono_cons(
                t,
                spec_lex(cs.skip((k + 2) as int), line, col + 2 + k)->Ok_0,
                entry,
                SpecPos { line, col: col + 2 + k },
            );
        } else if c == ';' {
            let k = run_len_not(cs.drop_first(), '\n');
            let t = SpecToken {
                value: cs.take((k + 1) as int),
                token_type: TokenType::Comment,
                start: SpecPos { line, col: col + 1 },
                end: SpecPos { line, col: col + 1 + k },
            };
            lemma_lex_positions_monotonic(cs.skip((k + 1) as int), line, col + 1 + k);
            lemma_mono_cons(
                t,
                spec_lex(cs.skip((k + 1) as int), line, col + 1 + k)->Ok_0,
                entry,
                SpecPos { line, col: col + 1 + k },
            );
        } else if char_is_numeric(c) || ((c == '-' || c == '+') && cs.len() > 1 && char_is_numeric(
            cs[1],
        )) {
            let k = run_len_alnum(cs.drop_first());
            let t = SpecToken {
                value: cs.take((k + 1) as int),
                token_type: TokenType::NumberLiteral,
                start: SpecPos { line, col: col + 1 },
                end: SpecPos { line, col: col + 1 + k },
            };
            lemma_lex_positions_monotonic(cs.skip((k + 1) as int), line, col + 1 + k);
            lemma_mono_cons(
                t,
                spec_lex(cs.skip((k + 1) as int), line, col + 1 + k)->Ok_0,
                entry,
                SpecPos { line, col: col + 1 + k },
            );
        } else if char_is_alphabetic(c) || spec_is_word_symbol(c) {
            let k = run_len_word(cs.drop_first());
            let t = SpecToken {
                value: cs.take((k + 1) as int),
                token_type: TokenType::Word,
                start: SpecPos { line, col: col + 1 },
                end: SpecPos { line, col: col + 1 + k },
            };
            lemma_lex_positions_monotonic(cs.skip((k + 1) as int), line, col + 1 + k);
            lemma_mono_cons(
                t,
                spec_lex(cs.skip((k + 1) as int), line, col + 1 + k)->Ok_0,
                entry,
                SpecPos { line, col: col + 1 + k },
            );
        } else {
            lemma_lex_positions_monotonic(cs.drop_first(), line, col + 1);
            let t = SpecToken {
                value: seq![c],
                token_type: TokenType::Unknown,
                start: SpecPos { line, col },
                end: SpecPos { line, col: col + 1 },
            };
            lemma_mono_cons(
                t,
                spec_lex(cs.drop_first(), line, col + 1)->Ok_0,
                entry,
                SpecPos { line, col: col + 1 },
            );
        }
    }
}

/// Whether the code point at index `j` of `s` may continue a word token.
fn word_char_at(s: &str, j: usize) -> (r: bool)
    requires
        j < s@.len(),
    ensures
        r == word_char(s@[j as int]),
{
    let c2 = s.get_char(j);
    Lexer::is_word_symbol(c2) || exec_char_is_alphanumeric(c2)
}

proof fn lemma_tokens_view_push(ts: Seq<Token>, t: Token)
    ensures
        tokens_view(ts.push(t)) == tokens_view(ts).push(t@),
{
    assert(tokens_view(ts.push(t)) =~= tokens_view(ts).push(t@));
}

proof fn lemma_concat_prepend(pre: Seq<SpecToken>, t: SpecToken, r: Result<Seq<SpecToken>, SpecPos>)
    ensures
        lex_concat(pre.push(t), r) == lex_concat(pre, lex_prepend(t, r)),
{
    match r {
        Ok(ts) => {
            assert(pre.push(t) + ts =~= pre + (seq![t] + ts));
        },
        Err(_) => {},
    }
}

impl TokenType {
    /// The kind of the five single-character tokens; every other character
    /// is refused.
    pub fn from_char(c: char) -> (r: Result<TokenType, LexError>)
        ensures
            is_single_char_token(c) ==> r == Ok::<TokenType, LexError>(single_char_token_type(c)),
            !is_single_char_token(c) ==> r == Err::<TokenType, LexError>(
                LexError::NotSingleCharToken { c },
            ),
    {
        match c {
            '(' => Ok(TokenType::LParen),
            ')' => Ok(TokenType::RParen),
            '[' => Ok(TokenType::LSquare),
            ']' => Ok(TokenType::RSquare),
            '\'' => Ok(TokenType::SingleQuote),
            _ => Err(LexError::NotSingleCharToken { c }),
        }
    }
}

impl Token {
    /// A field-for-field copy of this token.
    pub fn duplicate(&self) -> (r: Token)
        ensures
            r == *self,
    {
        Token {
            value: self.value.clone(),
            token_type: self.token_type,
            start: self.start,
            end: self.end,
        }
    }

    /// The kind of this token.
    pub fn token_type(&self) -> (r: &TokenType)
        ensures
            *r == self.token_type,
    {
        &self.token_type
    }
}

/// The lexer: the source string and the tokens produced so far.
#[derive(Debug)]
pub struct Lexer {
    internal: String,
    tokens: Vec<Token>,
}

/// The mathematical content of a `Lexer`: the source as a sequence of code
/// points, and the tokens produced so far.
pub ghost struct LexerView {
    pub input: Seq<char>,
    pub tokens: Seq<Token>,
}

impl View for Lexer {
    type V = LexerView;

    closed spec fn view(&self) -> LexerView {
        LexerView { input: self.internal@, tokens: self.tokens@ }
    }
}

impl Lexer {
    /// A fresh lexer over `string`, with no tokens yet.
    pub fn from_string(string: String) -> (r: Lexer)
        ensures
            r@.input == string@,
            r@.tokens == Seq::<Token>::empty(),
    {
        Lexer { internal: string, tokens: Vec::new() }
    }

    /// A copy of the tokens produced so far.
    pub fn tokens(&self) -> (r: Vec<Token>)
        ensures
            r@ == self@.tokens,
    {
        let mut out: Vec<Token> = Vec::new();
        let n = self.tokens.len();
        let mut i: usize = 0;
        while i < n
            invariant
                n == self.tokens@.len(),
                i <= n,
                out@ == self.tokens@.take(i as int),
            decreases n - i,
        {
            let t = &self.tokens[i];
            out.push(
                Token {
                    value: t.value.clone(),
                    token_type: t.token_type,
                    start: t.start,
                    end: t.end,
                },
            );
            i = i + 1;
            proof {
                assert(out@ =~= self.tokens@.take(i as int));
            }
        }
        proof {
            assert(out@ =~= self.tokens@);
        }
        out
    }

    /// Scan the source left to right, appending its tokens, per `spec_lex`.
    /// Fails exactly where the model fails: on an unterminated string
    /// literal, reporting the position the scan had reached.
    #[verifier::rlimit(100)]
    pub fn parse(&mut self) -> (r: Result<(), LexError>)
        requires
            old(self)@.input.len() < usize::MAX,
        ensures
            final(self)@.input == old(self)@.input,
            match r {
                Ok(()) => lex_concat(
                    tokens_view(old(self)@.tokens),
                    spec_lex(old(self)@.input, 1, 0),
                ) == Ok::<Seq<SpecToken>, SpecPos>(tokens_view(final(self)@.tokens)),
                Err(e) => match e {
                    LexError::UnterminatedString { line, col } => spec_lex(
                        old(self)@.input,
                        1,
                        0,
                    ) == Err::<Seq<SpecToken>, SpecPos>(
                        SpecPos { line: line as int, col: col as int },
                    ),
                    LexError::NotSingleCharToken { .. } => false,
                },
            },
    {
        let ghost input = self.internal@;
        let ghost toks0 = self.tokens@;
        let n = self.internal.as_str().unicode_len();
        let mut i: usize = 0;
        let mut line: usize = 1;
        let mut col: usize = 0;
        proof {
            assert(input.skip(0) =~= input);
        }
        while i < n
            invariant
                input == old(self)@.input,
                toks0 == old(self)@.tokens,
                self.internal@ == input,
                n == input.len(),
                n < usize::MAX,
                i <= n,
                col <= i,
                1 <= line,
                line <= i + 1,
                lex_concat(
                    tokens_view(self.tokens@),
                    spec_lex(input.skip(i as int), line as int, col as int),
                ) == lex_concat(tokens_view(toks0), spec_lex(input, 1, 0)),
            decreases n - i,
        {
            let ghost cs = input.skip(i as int);
            proof {
                assert(cs[0] == input[i as int]);
                assert(cs.drop_first() =~= input.skip(i as int + 1));
            }
            let c = self.internal.as_str().get_char(i);
            match c {
                ' ' => {
                    col = col + 1;
                    i = i + 1;
                },
                '\n' => {
                    col = 0;
                    line = line + 1;
                    i = i + 1;
                },
                '(' | ')' | '[' | ']' | '\'' => {
                    let tt = match TokenType::from_char(c) {
                        Ok(tt) => tt,
                        Err(_) => vstd::pervasive::unreached(),
                    };
                    let value = self.internal.as_str().substring_char(i, i + 1).to_owned();
                    let token = Token {
                        value,
                        token_type: tt,
                        start: TokenPosition { line, col },
                        end: TokenPosition { line, col: col + 1 },
                    };
                    proof {
                        let t = SpecToken {
                            value: seq![cs[0]],
                            token_type: single_char_token_type(cs[0]),
                            start: SpecPos { line: line as int, col: col as int },
                            end: SpecPos { line: line as int, col: col as int + 1 },
                        };
                        assert(token@.value =~= t.value);
                        lemma_tokens_view_push(self.tokens@, token);
                        lemma_concat_prepend(
                            tokens_view(self.tokens@),
                            t,
                            spec_lex(input.skip(i as int + 1), line as int, col as int + 1),
                        );
                    }
                    self.tokens.push(token);
                    col = col + 1;
                    i = i + 1;
                },
                '"' => {
                    let mut j = i + 1;
                    while j < n && self.internal.as_str().get_char(j) != '"'
                        invariant
                            self.internal@ == input,
                            n == input.len(),
                            i + 1 <= j <= n,
                            i < n,
                            forall|m: int| i + 1 <= m < j ==> input[m] != '"',
                        decreases n - j,
                    {
                        j = j + 1;
                    }
                    let ghost k = (j - i - 1) as nat;
                    proof {
                        lemma_run_len_not_is(input.skip(i as int + 1), '"', k);
                        assert(run_len_not(cs.drop_first(), '"') == k);
                    }
                    if j == n {
                        let err_col = col + 1 + (j - i - 1);
                        proof {
                            assert(spec_lex(cs, line as int, col as int) == Err::<
                                Seq<SpecToken>,
                                SpecPos,
                            >(SpecPos { line: line as int, col: col as int + 1 + k }));
                            assert(lex_concat(
                                tokens_view(toks0),
                                spec_lex(input, 1, 0),
                            ) == Err::<Seq<SpecToken>, SpecPos>(
                                SpecPos { line: line as int, col: col as int + 1 + k },
                            ));
                            assert(spec_lex(input, 1, 0) == Err::<Seq<SpecToken>, SpecPos>(
                                SpecPos { line: line as int, col: col as int + 1 + k },
                            ));
                        }
                        return Err(LexError::UnterminatedString { line, col: err_col });
                    }
                    let value = self.internal.as_str().substring_char(i, j + 1).to_owned();
                    let token = Token {
                        value,
                        token_type: TokenType::StringLiteral,
                        start: TokenPosition { line, col: col + 1 },
                        end: TokenPosition { line, col: col + 2 + (j - i - 1) },
                    };
                    proof {
                        let t = SpecToken {
                            value: cs.take(k as int + 2),
                            token_type: TokenType::StringLiteral,
                            start: SpecPos { line: line as int, col: col as int + 1 },
                            end: SpecPos { line: line as int, col: col as int + 2 + k },
                        };
                        assert(token@.value =~= t.value);
                        assert(cs.skip(k as int + 2) =~= input.skip(j as int + 1));
                        lemma_tokens_view_push(self.tokens@, token);
                        lemma_concat_prepend(
                            tokens_view(self.tokens@),
                            t,
                            spec_lex(input.skip(j as int + 1), line as int, col as int + 2 + k),
                        );
                    }
                    self.tokens.push(token);
                    col = col + 2 + (j - i - 1);
                    i = j + 1;
                },
                ';' => {
                    let mut j = i + 1;
                    while j < n && self.internal.as_str().get_char(j) != '\n'
                        invariant
                            self.internal@ == input,
                            n == input.len(),
                            i + 1 <= j <= n,
                            i < n,
                            forall|m: int| i + 1 <= m < j ==> input[m] != '\n',
                        decreases n - j,
                    {
                        j = j + 1;
                    }
                    let ghost k = (j - i - 1) as nat;
                    proof {
                        lemma_run_len_not_is(input.skip(i as int + 1), '\n', k);
                        assert(run_len_not(cs.drop_first(), '\n') == k);
                    }
                    let value = self.internal.as_str().substring_char(i, j).to_owned();
                    let token = Token {
                        value,
                        token_type: TokenType::Comment,
                        start: TokenPosition { line, col: col + 1 },
                        end: TokenPosition { line, col: col + 1 + (j - i - 1) },
                    };
                    proof {
                        let t = SpecToken {
                            value: cs.take(k as int + 1),
                            token_type: TokenType::Comment,
                            start: SpecPos { line: line as int, col: col as int + 1 },
                            end: SpecPos { line: line as int, col: col as int + 1 + k },
                        };
                        assert(token@.value =~= t.value);
                        assert(cs.skip(k as int + 1) =~= input.skip(j as int));
                        lemma_tokens_view_push(self.tokens@, token);
                        lemma_concat_prepend(
                            tokens_view(self.tokens@),
                            t,
                            spec_lex(input.skip(j as int), line as int, col as int + 1 + k),
                        );
                    }
                    self.tokens.push(token);
                    col = col + 1 + (j - i - 1);
                    i = j;
                },
                _ => {
                    let numeric_start = exec_char_is_numeric(c) || ((c == '-' || c == '+') && i + 1
                        < n && exec_char_is_numeric(self.internal.as_str().get_char(i + 1)));
                    if numeric_start {
                        let mut j = i + 1;
                        while j < n && exec_char_is_alphanumeric(
                            self.internal.as_str().get_char(j),
                        )
                            invariant
                                self.internal@ == input,
                                n == input.len(),
                                i + 1 <= j <= n,
                                i < n,
                                forall|m: int| i + 1 <= m < j ==> alnum_char(input[m]),
                            decreases n - j,
                        {
                            j = j + 1;
                        }
                        let ghost k = (j - i - 1) as nat;
                        proof {
                            lemma_run_len_alnum_is(input.skip(i as int + 1), k);
                            assert(run_len_alnum(cs.drop_first()) == k);
                        }
                        let value = self.internal.as_str().substring_char(i, j).to_owned();
                        let token = Token {
                            value,
                            token_type: TokenType::NumberLiteral,
                            start: TokenPosition { line, col: col + 1 },
                            end: TokenPosition { line, col: col + 1 + (j - i - 1) },
                        };
                        proof {
                            let t = SpecToken {
                                value: cs.take(k as int + 1),
                                token_type: TokenType::NumberLiteral,
                                start: SpecPos { line: line as int, col: col as int + 1 },
                                end: SpecPos { line: line as int, col: col as int + 1 + k },
                            };
                            assert(token@.value =~= t.value);
                            assert(cs.skip(k as int + 1) =~= input.skip(j as int));
                            lemma_tokens_view_push(self.tokens@, token);
                            lemma_concat_prepend(
                                tokens_view(self.tokens@),
                                t,
                                spec_lex(input.skip(j as int), line as int, col as int + 1 + k),
                            );
                        }
                        self.tokens.push(token);
                        col = col + 1 + (j - i - 1);
                        i = j;
                    } else if exec_char_is_alphabetic(c) || Lexer::is_word_symbol(c) {
                        let mut j = i + 1;
                        while j < n && word_char_at(self.internal.as_str(), j)
                            invariant
                                self.internal@ == input,
                                n == input.len(),
                                i + 1 <= j <= n,
                                i < n,
                                forall|m: int| i + 1 <= m < j ==> word_char(input[m]),
                            decreases n - j,
                        {
                            j = j + 1;
                        }
                        let ghost k = (j - i - 1) as nat;
                        proof {
                            lemma_run_len_word_is(input.skip(i as int + 1), k);
                            assert(run_len_word(cs.drop_first()) == k);
                        }
                        let value = self.internal.as_str().substring_char(i, j).to_owned();
                        let token = Token {
                            value,
                            token_type: TokenType::Word,
                            start: TokenPosition { line, col: col + 1 },
                            end: TokenPosition { line, col: col + 1 + (j - i - 1) },
                        };
                        proof {
                            let t = SpecToken {
                                value: cs.take(k as int + 1),
                                token_type: TokenType::Word,
                                start: SpecPos { line: line as int, col: col as int + 1 },
                                end: SpecPos { line: line as int, col: col as int + 1 + k },
                            };
                            assert(token@.value =~= t.value);
                            assert(cs.skip(k as int + 1) =~= input.skip(j as int));
                            lemma_tokens_view_push(self.tokens@, token);
                            lemma_concat_prepend(
                                tokens_view(self.tokens@),
                                t,
                                spec_lex(input.skip(j as int), line as int, col as int + 1 + k),
                            );
                        }
                        self.tokens.push(token);
                        col = col + 1 + (j - i - 1);
                        i = j;
                    } else {
                        let value = self.internal.as_str().substring_char(i, i + 1).to_owned();
                        let token = Token {
                            value,
                            token_type: TokenType::Unknown,
                            start: TokenPosition { line, col },
                            end: TokenPosition { line, col: col + 1 },
                        };
                        proof {
                            let t = SpecToken {
                                value: seq![cs[0]],
                                token_type: TokenType::Unknown,
                                start: SpecPos { line: line as int, col: col as int },
                                end: SpecPos { line: line as int, col: col as int + 1 },
                            };
                            assert(token@.value =~= t.value);
                            lemma_tokens_view_push(self.tokens@, token);
                            lemma_concat_prepend(
                                tokens_view(self.tokens@),
                                t,
                                spec_lex(input.skip(i as int + 1), line as int, col as int + 1),
                            );
                        }
                        self.tokens.push(token);
                        col = col + 1;
                        i = i + 1;
                    }
                },
            }
        }
        proof {
            assert(input.skip(n as int) =~= Seq::<char>::empty());
            assert(tokens_view(self.tokens@) + Seq::<SpecToken>::empty() =~= tokens_view(
                self.tokens@,
            ));
        }
        Ok(())
    }

    /// Whether `c` may stand in a word besides letters and digits.
    pub fn is_word_symbol(c: char) -> (r: bool)
        ensures
            r == spec_is_word_symbol(c),
    {
        matches!(c, '+' | '-' | '/' | '*' | '_' | '=' | '?' | '!' | '<' | '>')
    }
}

} // verus!
