//! A pull-based tokenizer: each call of `Lexer::next_token` classifies the
//! character under the cursor, consumes what the rule for that character
//! asks for, and hands back one token with its source span.
//!
//! Offsets count characters (Unicode scalar values), not bytes.
use vstd::prelude::*;

verus! {

/// What a span denotes: the half-open range `[start, end)` and the text it covers.
pub struct SpanView {
    pub start: nat,
    pub end: nat,
    pub literal: Seq<char>,
}

/// A half-open character range of the source together with its text.
#[derive(Debug)]
pub struct TextSpan {
    start: usize,
    end: usize,
    literal: String,
}

impl View for TextSpan {
    type V = SpanView;

    closed spec fn view(&self) -> SpanView {
        SpanView { start: self.start as nat, end: self.end as nat, literal: self.literal@ }
    }
}

impl TextSpan {
    #[verifier::type_invariant]
    spec fn well_formed(&self) -> bool {
        self.start <= self.end
    }

    /// A span over `[start, end)` whose text is `literal`.
    pub fn new(start: usize, end: usize, literal: String) -> (span: Self)
        requires
            start <= end,
        ensures
            span@ == (SpanView { start: start as nat, end: end as nat, literal: literal@ }),
    {
        Self { start, end, literal }
    }

    /// The number of positions the span covers.
    pub fn length(&self) -> (n: usize)
        ensures
            n == self@.end - self@.start,
    {
        proof {
            use_type_invariant(self);
        }
        self.end - self.start
    }

    /// The first position of the span.
    pub fn start(&self) -> (r: usize)
        ensures
            r == self@.start,
    {
        self.start
    }

    /// The position just past the span.
    pub fn end(&self) -> (r: usize)
        ensures
            r == self@.end,
    {
        self.end
    }

    /// The text the span covers.
    pub fn literal(&self) -> (r: &str)
        ensures
            r@ == self@.literal,
    {
        self.literal.as_str()
    }
}

/// The class of a token.
#[derive(Debug, Clone, Copy, PartialEq, Eq, Structural)]
pub enum TokenKind {
    /// A decimal literal and its value.
    Number(i64),
    Plus,
    Minus,
    Asterisk,
    Slash,
    LeftParen,
    RightParen,
    /// The end of the source; emitted once, after every other token.
    EndOfInput,
    /// A character that starts no token of the language.
    Invalid,
}

/// What a token denotes: its kind and its span.
pub struct TokenView {
    pub kind: TokenKind,
    pub span: SpanView,
}

/// A classified piece of the source. It owns its text, so it outlives the lexer.
#[derive(Debug)]
pub struct Token {
    kind: TokenKind,
    span: TextSpan,
}

impl View for Token {
    type V = TokenView;

    closed spec fn view(&self) -> TokenView {
        TokenView { kind: self.kind, span: self.span@ }
    }
}

impl DeepView for Token {
    type V = TokenView;

    open spec fn deep_view(&self) -> TokenView {
        self@
    }
}

impl Token {
    pub fn new(kind: TokenKind, span: TextSpan) -> (t: Self)
        ensures
            t@ == (TokenView { kind, span: span@ }),
    {
        Self { kind, span }
    }

    /// The class of the token.
    pub fn kind(&self) -> (r: TokenKind)
        ensures
            r == self@.kind,
    {
        self.kind
    }

    /// Where the token stands in the source, and its text.
    pub fn span(&self) -> (r: &TextSpan)
        ensures
            r@ == self@.span,
    {
        &self.span
    }
}

/// An ASCII decimal digit.
pub open spec fn is_digit(c: char) -> bool {
    '0' <= c && c <= '9'
}

/// The value of a decimal digit.
pub open spec fn digit_value(c: char) -> int {
    c as int - '0' as int
}

/// The kind of a token that consists of the single character `c` alone.
pub open spec fn single_char_kind(c: char) -> TokenKind {
    if c == '+' {
        TokenKind::Plus
    } else if c == '-' {
        TokenKind::Minus
    } else if c == '*' {
        TokenKind::Asterisk
    } else if c == '/' {
        TokenKind::Slash
    } else if c == '(' {
        TokenKind::LeftParen
    } else if c == ')' {
        TokenKind::RightParen
    } else {
        TokenKind::Invalid
    }
}

/// The value of a run of digits, accumulated left to right as
/// `value * 10 + digit` in 64-bit two's complement arithmetic (it wraps).
pub open spec fn number_value(digits: Seq<char>) -> i64
    decreases digits.len(),
{
    if digits.len() == 0 {
        0
    } else {
        vstd::wrapping::i64_specs::wrapping_add(
            vstd::wrapping::i64_specs::wrapping_mul(number_value(digits.drop_last()), 10),
            digit_value(digits.last()) as i64,
        )
    }
}

/// The value of a run of digits as an unbounded integer.
pub open spec fn decimal_value(digits: Seq<char>) -> int
    decreases digits.len(),
{
    if digits.len() == 0 {
        0
    } else {
        decimal_value(digits.drop_last()) * 10 + digit_value(digits.last())
    }
}

/// A literal whose value fits in an `i64` gets exactly that value: the
/// accumulation wraps only past `i64::MAX`.
pub proof fn lemma_number_value_exact(digits: Seq<char>)
    requires
        forall|i: int| 0 <= i < digits.len() ==> is_digit(#[trigger] digits[i]),
        decimal_value(digits) <= i64::MAX,
    ensures
        number_value(digits) == decimal_value(digits),
        decimal_value(digits) >= 0,
    decreases digits.len(),
{
    if digits.len() > 0 {
        let prefix = digits.drop_last();
        assert forall|i: int| 0 <= i < prefix.len() implies is_digit(#[trigger] prefix[i]) by {
            assert(prefix[i] == digits[i]);
        }
        lemma_decimal_value_nonneg(prefix);
        assert(digits.last() == digits[digits.len() - 1]);
        let d = digit_value(digits.last());
        let p = decimal_value(prefix);
        assert(p * 10 <= p * 10 + d);
        lemma_number_value_exact(prefix);
        let m = p * 10;
        assert(0 <= m < 0x1_0000_0000_0000_0000);
        assert(m % 0x1_0000_0000_0000_0000 == m) by (nonlinear_arith)
            requires
                0 <= m < 0x1_0000_0000_0000_0000,
        ;
    }
}

/// A run of digits has a value of at least zero.
pub proof fn lemma_decimal_value_nonneg(digits: Seq<char>)
    requires
        forall|i: int| 0 <= i < digits.len() ==> is_digit(#[trigger] digits[i]),
    ensures
        decimal_value(digits) >= 0,
    decreases digits.len(),
{
    if digits.len() > 0 {
        let prefix = digits.drop_last();
        assert forall|i: int| 0 <= i < prefix.len() implies is_digit(#[trigger] prefix[i]) by {
            assert(prefix[i] == digits[i]);
        }
        lemma_decimal_value_nonneg(prefix);
        assert(digits.last() == digits[digits.len() - 1]);
    }
}

/// The first position at or after `i` that does not hold a digit (or the end).
pub open spec fn digit_run_end(src: Seq<char>, i: int) -> int
    decreases src.len() - i,
{
    if 0 <= i < src.len() && is_digit(src[i]) {
        digit_run_end(src, i + 1)
    } else {
        i
    }
}

/// A run of digits starting inside the source ends inside it, and holds
/// digits only.
pub proof fn lemma_digit_run_end_bounds(src: Seq<char>, i: int)
    requires
        0 <= i <= src.len(),
    ensures
        i <= digit_run_end(src, i) <= src.len(),
        forall|j: int| i <= j < digit_run_end(src, i) ==> is_digit(#[trigger] src[j]),
    decreases src.len() - i,
{
    if i < src.len() && is_digit(src[i]) {
        lemma_digit_run_end_bounds(src, i + 1);
    }
}

/// Where the token that starts at `start` ends: after the whole run of
/// digits for a number, after the one character otherwise.
pub open spec fn token_end(src: Seq<char>, start: int) -> int {
    if is_digit(src[start]) {
        digit_run_end(src, start)
    } else {
        start + 1
    }
}

/// The kind of the token that starts at `start`.
pub open spec fn kind_at(src: Seq<char>, start: int) -> TokenKind {
    if is_digit(src[start]) {
        TokenKind::Number(number_value(src.subrange(start, token_end(src, start))))
    } else {
        single_char_kind(src[start])
    }
}

/// The token that marks the end of the source: span `[0, 0)`, text one NUL.
pub open spec fn end_of_input_view() -> TokenView {
    TokenView {
        kind: TokenKind::EndOfInput,
        span: SpanView { start: 0, end: 0, literal: seq!['\0'] },
    }
}

/// One request for a token on `src` with the cursor at `cursor`: the token
/// handed out (none once the source is exhausted) and the cursor after it.
pub open spec fn step(src: Seq<char>, cursor: nat) -> (Option<TokenView>, nat) {
    if cursor > src.len() {
        (None, cursor)
    } else if cursor == src.len() {
        (Some(end_of_input_view()), cursor + 1)
    } else {
        let end = token_end(src, cursor as int);
        (
            Some(
                TokenView {
                    kind: kind_at(src, cursor as int),
                    span: SpanView {
                        start: cursor,
                        end: end as nat,
                        literal: src.subrange(cursor as int, end),
                    },
                },
            ),
            end as nat,
        )
    }
}

/// A request on a source that is not yet exhausted moves the cursor
/// forward, and never more than one position past the end.
pub proof fn lemma_step_advances(src: Seq<char>, cursor: nat)
    requires
        cursor <= src.len(),
    ensures
        step(src, cursor).0 is Some,
        cursor < step(src, cursor).1 <= src.len() + 1,
        cursor < src.len() ==> step(src, cursor).1 <= src.len(),
{
    if cursor < src.len() && is_digit(src[cursor as int]) {
        lemma_digit_run_end_bounds(src, cursor + 1int);
    }
}

/// What a lexer denotes: the source it reads and its cursor.
pub struct LexerView {
    pub source: Seq<char>,
    pub cursor: nat,
}

/// Turns a source text into tokens, one per call of `next_token`.
///
/// The cursor of the model runs from 0 to one past the end of the source;
/// its last step, taken with the end-of-input token, is kept as a flag.
pub struct Lexer<'a> {
    input: &'a str,
    input_len: usize,
    current_pos: usize,
    past_end: bool,
}

impl<'a> View for Lexer<'a> {
    type V = LexerView;

    closed spec fn view(&self) -> LexerView {
        LexerView {
            source: self.input@,
            cursor: if self.past_end {
                (self.current_pos + 1) as nat
            } else {
                self.current_pos as nat
            },
        }
    }
}

impl<'a> Lexer<'a> {
    #[verifier::type_invariant]
    spec fn well_formed(&self) -> bool {
        &&& self.input_len == self.input@.len()
        &&& self.current_pos <= self.input_len
        &&& self.past_end ==> self.current_pos == self.input_len
    }

    /// A lexer at the start of `input`.
    pub fn new(input: &'a str) -> (lexer: Self)
        ensures
            lexer@ == (LexerView { source: input@, cursor: 0 }),
    {
        let input_len = input.unicode_len();
        Self { input, input_len, current_pos: 0, past_end: false }
    }

    /// Hands out the next token, or `None` once the source is exhausted.
    pub fn next_token(&mut self) -> (r: Option<Token>)
        ensures
            final(self)@.source == old(self)@.source,
            final(self)@.cursor == step(old(self)@.source, old(self)@.cursor).1,
            r.deep_view() == step(old(self)@.source, old(self)@.cursor).0,
    {
        proof {
            use_type_invariant(&*self);
        }
        if self.past_end {
            return None;
        }
        if self.current_pos == self.input_len {
            self.past_end = true;
            let nul = "\0".to_string();
            proof {
                reveal_strlit("\0");
                assert(nul@ =~= seq!['\0']);
            }
            return Some(Token::new(TokenKind::EndOfInput, TextSpan::new(0, 0, nul)));
        }
        let start = self.current_pos;
        let c = self.current_char();
        proof {
            lemma_digit_run_end_bounds(self@.source, start as int);
        }
        let kind = if Self::is_number_start(&c) {
            TokenKind::Number(self.consume_number())
        } else {
            let _ = self.consume();
            Self::single_char_token(c)
        };
        let end = self.current_pos;
        let literal = self.input.substring_char(start, end).to_string();
        Some(Token::new(kind, TextSpan::new(start, end, literal)))
    }

    /// Consumes the run of digits under the cursor and returns its value.
    fn consume_number(&mut self) -> (number: i64)
        requires
            old(self)@.cursor < old(self)@.source.len(),
            is_digit(old(self)@.source[old(self)@.cursor as int]),
        ensures
            final(self)@.source == old(self)@.source,
            final(self)@.cursor == digit_run_end(old(self)@.source, old(self)@.cursor as int),
            final(self).past_end == old(self).past_end,
            number == number_value(
                old(self)@.source.subrange(old(self)@.cursor as int, final(self)@.cursor as int),
            ),
    {
        proof {
            use_type_invariant(&*self);
        }
        let ghost src = self@.source;
        let ghost start = self@.cursor as int;
        let mut number: i64 = 0;
        assert(src.subrange(start, start) =~= Seq::<char>::empty());
        while self.current_pos < self.input_len && Self::is_number_start(&self.current_char())
            invariant
                self@.source == src,
                self.input_len == src.len(),
                !self.past_end,
                0 <= start <= self.current_pos <= src.len(),
                digit_run_end(src, start) == digit_run_end(src, self.current_pos as int),
                number == number_value(src.subrange(start, self.current_pos as int)),
            decreases self.input_len - self.current_pos,
        {
            let ghost pos = self.current_pos as int;
            if let Some(c) = self.consume() {
                number = number.wrapping_mul(10).wrapping_add((c as u32 - '0' as u32) as i64);
                assert(src.subrange(start, pos + 1).drop_last() =~= src.subrange(start, pos));
            }
            proof {
                use_type_invariant(&*self);
            }
        }
        number
    }

    /// Moves the cursor past the character under it and returns that
    /// character, or returns `None` at the end of the source.
    fn consume(&mut self) -> (r: Option<char>)
        ensures
            final(self)@.source == old(self)@.source,
            old(self)@.cursor < old(self)@.source.len() ==> r == Some(
                old(self)@.source[old(self)@.cursor as int],
            ) && final(self)@.cursor == old(self)@.cursor + 1,
            old(self)@.cursor >= old(self)@.source.len() ==> r is None && final(self)@.cursor
                == old(self)@.cursor,
            final(self).past_end == old(self).past_end,
    {
        proof {
            use_type_invariant(&*self);
        }
        if self.current_pos >= self.input_len {
            return None;
        }
        let c = self.current_char();
        self.current_pos = self.current_pos + 1;
        Some(c)
    }

    /// Whether `c` starts a number.
    fn is_number_start(c: &char) -> (r: bool)
        ensures
            r == is_digit(*c),
    {
        '0' <= *c && *c <= '9'
    }

    /// The kind of a token made of `c` alone.
    fn single_char_token(c: char) -> (kind: TokenKind)
        ensures
            kind == single_char_kind(c),
    {
        match c {
            '+' => TokenKind::Plus,
            '-' => TokenKind::Minus,
            '*' => TokenKind::Asterisk,
            '/' => TokenKind::Slash,
            '(' => TokenKind::LeftParen,
            ')' => TokenKind::RightParen,
            _ => TokenKind::Invalid,
        }
    }

    /// The character under the cursor.
    fn current_char(&self) -> (c: char)
        requires
            self@.cursor < self@.source.len(),
        ensures
            c == self@.source[self@.cursor as int],
    {
        proof {
            use_type_invariant(self);
        }
        self.input.get_char(self.current_pos)
    }
}

} // verus!
