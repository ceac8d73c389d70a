//! The rfx project file format.
//!
//! A project file is a list of commands. At top level, `node "<plugin>"`
//! creates a node from a plug-in, either alone (`;`) or followed by a block
//! `{ ... }` of node commands: `name "<node name>";` and
//! `param "<parameter>" <values>;`. Comments run from `#` to the end of the
//! line.
//!
//! The lexer reads the characters of the file. The characters that it
//! understands are all ASCII; any other character in a place where the lexer
//! has to read it is an error.
use vstd::prelude::*;
use crate::numbers::{spec_parse_i32, parse_i32_range, is_float_literal, is_float_literal_range, is_digit};
use crate::text::{chars_of, substring};
use crate::rfx::project::{signed_decimal, lemma_signed_decimal};

verus! {

/// The commands of the format.
#[derive(Debug, Clone, Copy, PartialEq, Eq, Structural)]
pub enum CommandType {
    /// `name`: set the name of a node.
    Name,
    /// `node`: create a node.
    Node,
    /// `param`: set a parameter.
    Param,
    /// `path`: plug-in path.
    Path,
    /// `property`: set a property.
    Property,
}

/// A token of a project file. A floating-point number is kept as the text
/// that writes it.
#[derive(Debug, PartialEq, Clone)]
pub enum Token {
    OpenBrace,
    CloseBrace,
    Command(CommandType),
    SemiColon,
    StringLiteral(String),
    FloatNumber(String),
    IntNumber(i32),
    EOF,
}

/// What a token is, with its text as a sequence of characters.
pub enum TokenView {
    OpenBrace,
    CloseBrace,
    Command(CommandType),
    SemiColon,
    StringLiteral(Seq<char>),
    FloatNumber(Seq<char>),
    IntNumber(i32),
    Eof,
}

impl View for Token {
    type V = TokenView;

    open spec fn view(&self) -> TokenView {
        match self {
            Token::OpenBrace => TokenView::OpenBrace,
            Token::CloseBrace => TokenView::CloseBrace,
            Token::Command(c) => TokenView::Command(*c),
            Token::SemiColon => TokenView::SemiColon,
            Token::StringLiteral(s) => TokenView::StringLiteral(s@),
            Token::FloatNumber(s) => TokenView::FloatNumber(s@),
            Token::IntNumber(n) => TokenView::IntNumber(*n),
            Token::EOF => TokenView::Eof,
        }
    }
}

/// Why the lexer stops.
#[derive(Debug, Clone, Copy, PartialEq, Eq, Structural)]
pub enum LexError {
    /// A character that starts no token.
    UnrecognizedCharacter,
    /// A word that is not a command.
    UnknownCommand,
    /// A number without digits, or out of the 32-bit range.
    InvalidInteger,
    /// A number with a `.` that is not a floating-point literal.
    InvalidFloat,
    /// A character that is not ASCII inside a comment or a string.
    NonAsciiText,
    /// Reading on after a comment that ran to the end of the file.
    PastEnd,
}

/// Where the lexer stands.
#[derive(Debug, Clone, Copy, PartialEq, Eq, Structural)]
pub enum LexerState {
    Start,
    Comment,
    StringLiteral,
    Integer,
    Float,
    Command,
}

/// The character at `i`, if `i` is inside `s`.
pub open spec fn char_at(s: Seq<char>, i: int) -> Option<char> {
    if 0 <= i < s.len() {
        Some(s[i])
    } else {
        None
    }
}

/// A lower-case ASCII letter.
pub open spec fn is_lower(c: char) -> bool {
    'a' <= c && c <= 'z'
}

/// An ASCII character.
pub open spec fn is_ascii_char(c: char) -> bool {
    c < '\u{80}'
}

/// The command a word names.
pub open spec fn command_of(w: Seq<char>) -> Option<CommandType> {
    if w == seq!['n', 'a', 'm', 'e'] {
        Some(CommandType::Name)
    } else if w == seq!['n', 'o', 'd', 'e'] {
        Some(CommandType::Node)
    } else if w == seq!['p', 'a', 'r', 'a', 'm'] {
        Some(CommandType::Param)
    } else if w == seq!['p', 'a', 't', 'h'] {
        Some(CommandType::Path)
    } else if w == seq!['p', 'r', 'o', 'p', 'e', 'r', 't', 'y'] {
        Some(CommandType::Property)
    } else {
        None
    }
}

/// One step of the lexer.
pub enum LexStep {
    /// Go on from this state and these positions.
    Next(LexerState, int, int),
    /// Produce a token and stand at this state and these positions.
    Emit(TokenView, LexerState, int, int),
    /// Stop with an error.
    Fail(LexError),
}

/// One step of the lexer over `s`, in state `st`, with the current token
/// starting at `b` and the cursor at `e`.
pub open spec fn lex_step(s: Seq<char>, st: LexerState, b: int, e: int) -> LexStep {
    match st {
        LexerState::Start => match char_at(s, e) {
            None => LexStep::Emit(TokenView::Eof, st, b, e),
            Some(c) => if c == ' ' || c == '\n' || c == '\t' || c == '\r' {
                LexStep::Next(LexerState::Start, e + 1, e + 1)
            } else if c == ';' {
                LexStep::Emit(TokenView::SemiColon, LexerState::Start, e + 1, e + 1)
            } else if c == '{' {
                LexStep::Emit(TokenView::OpenBrace, LexerState::Start, e + 1, e + 1)
            } else if c == '}' {
                LexStep::Emit(TokenView::CloseBrace, LexerState::Start, e + 1, e + 1)
            } else if is_lower(c) {
                LexStep::Next(LexerState::Command, e, e + 1)
            } else if c == '-' || is_digit(c) {
                LexStep::Next(LexerState::Integer, e, e + 1)
            } else if c == '#' {
                LexStep::Next(LexerState::Comment, e, e + 1)
            } else if c == '"' {
                LexStep::Next(LexerState::StringLiteral, e + 1, e + 1)
            } else {
                LexStep::Fail(LexError::UnrecognizedCharacter)
            },
        },
        LexerState::Command => match char_at(s, e) {
            Some(c) if is_lower(c) => LexStep::Next(LexerState::Command, b, e + 1),
            _ => match command_of(s.subrange(b, e)) {
                Some(cmd) => LexStep::Emit(TokenView::Command(cmd), LexerState::Start, e, e),
                None => LexStep::Fail(LexError::UnknownCommand),
            },
        },
        LexerState::Comment => if e > s.len() {
            LexStep::Fail(LexError::PastEnd)
        } else {
            match char_at(s, e) {
                Some(c) if c == '\n' => LexStep::Next(LexerState::Start, e, e),
                Some(c) if !is_ascii_char(c) => LexStep::Fail(LexError::NonAsciiText),
                _ => if e + 1 >= s.len() {
                    LexStep::Emit(TokenView::Eof, LexerState::Comment, b, e + 1)
                } else {
                    LexStep::Next(LexerState::Comment, b, e + 1)
                },
            }
        },
        LexerState::Integer => match char_at(s, e) {
            Some(c) if is_digit(c) => LexStep::Next(LexerState::Integer, b, e + 1),
            Some(c) if c == '.' => LexStep::Next(LexerState::Float, b, e + 1),
            _ => match spec_parse_i32(s.subrange(b, e)) {
                Some(n) => LexStep::Emit(TokenView::IntNumber(n), LexerState::Start, e, e),
                None => LexStep::Fail(LexError::InvalidInteger),
            },
        },
        LexerState::Float => match char_at(s, e) {
            Some(c) if is_digit(c) || c == 'e' || c == '-' => LexStep::Next(
                LexerState::Float,
                b,
                e + 1,
            ),
            _ => if is_float_literal(s.subrange(b, e)) {
                LexStep::Emit(TokenView::FloatNumber(s.subrange(b, e)), LexerState::Start, e, e)
            } else {
                LexStep::Fail(LexError::InvalidFloat)
            },
        },
        LexerState::StringLiteral => match char_at(s, e) {
            None => LexStep::Emit(TokenView::Eof, st, b, e),
            Some(c) => if c == '"' {
                LexStep::Emit(
                    TokenView::StringLiteral(s.subrange(b, e)),
                    LexerState::Start,
                    e + 1,
                    e + 1,
                )
            } else if !is_ascii_char(c) {
                LexStep::Fail(LexError::NonAsciiText)
            } else {
                LexStep::Next(LexerState::StringLiteral, b, e + 1)
            },
        },
    }
}

/// Orders the states that the lexer enters without moving its cursor.
pub open spec fn state_rank(st: LexerState) -> int {
    if st == LexerState::Comment {
        1
    } else {
        0
    }
}

/// What one call of [`Lexer::next_token`] gives from a state: the token or
/// the error, and the state and positions after it.
pub open spec fn lex_run(s: Seq<char>, st: LexerState, b: int, e: int) -> (
    Result<TokenView, LexError>,
    LexerState,
    int,
    int,
)
    decreases s.len() - e, state_rank(st),
{
    match lex_step(s, st, b, e) {
        LexStep::Next(st2, b2, e2) => if e < e2 <= s.len() || (e2 == e && state_rank(st2)
            < state_rank(st)) {
            lex_run(s, st2, b2, e2)
        } else {
            (Err(LexError::PastEnd), st, b, e)
        },
        LexStep::Emit(t, st2, b2, e2) => (Ok(t), st2, b2, e2),
        LexStep::Fail(err) => (Err(err), st, b, e),
    }
}

/// In the start state at the end of the text, the lexer gives `EOF` and
/// stays where it is, so every later call gives `EOF` again. (A comment
/// that runs to the end of the text gives `EOF` in the comment state,
/// from which a later call gives `PastEnd`.)
pub proof fn lemma_eof_stays(s: Seq<char>, b: int, e: int)
    requires
        e >= s.len(),
    ensures
        lex_run(s, LexerState::Start, b, e) == (
            Ok::<TokenView, LexError>(TokenView::Eof),
            LexerState::Start,
            b,
            e,
        ),
{
}

proof fn lemma_integer_run(s: Seq<char>, b: int, e: int)
    requires
        0 <= b < e <= s.len(),
        forall|i: int| e <= i < s.len() ==> is_digit(#[trigger] s[i]),
        spec_parse_i32(s.subrange(b, s.len() as int)) is Some,
    ensures
        lex_run(s, LexerState::Integer, b, e) == (
            Ok::<TokenView, LexError>(
                TokenView::IntNumber(spec_parse_i32(s.subrange(b, s.len() as int))->0),
            ),
            LexerState::Start,
            s.len() as int,
            s.len() as int,
        ),
    decreases s.len() - e,
{
    if e < s.len() {
        assert(is_digit(s[e]));
        lemma_integer_run(s, b, e + 1);
    }
}

/// A 32-bit integer written in decimal reads back as that integer, and
/// the end of the text follows it.
pub proof fn lemma_integer_round_trip(n: i32)
    ensures
        ({
            let s = signed_decimal(n as int);
            &&& lex_run(s, LexerState::Start, 0, 0) == (
                Ok::<TokenView, LexError>(TokenView::IntNumber(n)),
                LexerState::Start,
                s.len() as int,
                s.len() as int,
            )
            &&& lex_run(s, LexerState::Start, s.len() as int, s.len() as int) == (
                Ok::<TokenView, LexError>(TokenView::Eof),
                LexerState::Start,
                s.len() as int,
                s.len() as int,
            )
        }),
{
    let s = signed_decimal(n as int);
    lemma_signed_decimal(n as int);
    assert(s.subrange(0, s.len() as int) =~= s);
    lemma_integer_run(s, 0, 1);
}

proof fn lemma_string_run(s: Seq<char>, b: int, e: int)
    requires
        0 <= b <= e < s.len(),
        s[s.len() - 1] == '"',
        forall|i: int| e <= i < s.len() - 1 ==> #[trigger] s[i] != '"' && is_ascii_char(s[i]),
    ensures
        lex_run(s, LexerState::StringLiteral, b, e) == (
            Ok::<TokenView, LexError>(TokenView::StringLiteral(s.subrange(b, s.len() - 1))),
            LexerState::Start,
            s.len() as int,
            s.len() as int,
        ),
    decreases s.len() - e,
{
    if e < s.len() - 1 {
        assert(s[e] != '"' && is_ascii_char(s[e]));
        lemma_string_run(s, b, e + 1);
    }
}

/// ASCII text without a quote, put between quotes, reads back as a string
/// with that text, and the end of the text follows it.
pub proof fn lemma_quoted_round_trip(t: Seq<char>)
    requires
        forall|i: int| 0 <= i < t.len() ==> #[trigger] t[i] != '"' && is_ascii_char(t[i]),
    ensures
        ({
            let s = seq!['"'] + t + seq!['"'];
            &&& lex_run(s, LexerState::Start, 0, 0) == (
                Ok::<TokenView, LexError>(TokenView::StringLiteral(t)),
                LexerState::Start,
                s.len() as int,
                s.len() as int,
            )
            &&& lex_run(s, LexerState::Start, s.len() as int, s.len() as int) == (
                Ok::<TokenView, LexError>(TokenView::Eof),
                LexerState::Start,
                s.len() as int,
                s.len() as int,
            )
        }),
{
    let s = seq!['"'] + t + seq!['"'];
    assert forall|i: int| 1 <= i < s.len() - 1 implies #[trigger] s[i] != '"' && is_ascii_char(s[i]) by {
        assert(s[i] == t[i - 1]);
    }
    lemma_string_run(s, 1, 1);
    assert(s.subrange(1, s.len() - 1) =~= t);
}

/// A character that the lexer skips between tokens.
pub open spec fn is_blank(c: char) -> bool {
    c == ' ' || c == '\n' || c == '\t' || c == '\r'
}

/// The tokens that successive calls of [`Lexer::next_token`] give from a
/// lexer in state `st` at (`b`, `e`), up to and including the first end of
/// file or error.
pub open spec fn token_run(s: Seq<char>, st: LexerState, b: int, e: int) -> Seq<
    Result<TokenView, LexError>,
>
    decreases s.len() + 2 - e,
{
    let (r, st2, b2, e2) = lex_run(s, st, b, e);
    match r {
        Ok(t) => if !(t is Eof) && e < e2 && e2 <= s.len() + 1 {
            seq![r] + token_run(s, st2, b2, e2)
        } else {
            seq![r]
        },
        Err(_) => seq![r],
    }
}

/// A result of the lexer with its positions moved on by `k`.
pub open spec fn shifted(
    x: (Result<TokenView, LexError>, LexerState, int, int),
    k: int,
) -> (Result<TokenView, LexError>, LexerState, int, int) {
    (x.0, x.1, x.2 + k, x.3 + k)
}

/// One step of the lexer with its positions moved on by `k`.
pub open spec fn shifted_step(x: LexStep, k: int) -> LexStep {
    match x {
        LexStep::Next(st, b, e) => LexStep::Next(st, b + k, e + k),
        LexStep::Emit(t, st, b, e) => LexStep::Emit(t, st, b + k, e + k),
        LexStep::Fail(err) => LexStep::Fail(err),
    }
}

proof fn lemma_step_shift(w: Seq<char>, s: Seq<char>, st: LexerState, b: int, e: int)
    requires
        positions_wf(s.len() as int, st, b, e),
    ensures
        lex_step(w + s, st, b + w.len(), e + w.len()) == shifted_step(lex_step(s, st, b, e), w.len() as int),
{
    let t = w + s;
    let k = w.len() as int;
    if 0 <= e < s.len() {
        assert(t[e + k] == s[e]);
    }
    assert(char_at(t, e + k) == char_at(s, e));
    if e <= s.len() {
        assert(t.subrange(b + k, e + k) =~= s.subrange(b, e));
    }
}

/// Text put before the text being read moves every result of the lexer on
/// by its length, and changes nothing else.
pub proof fn lemma_lex_shift(w: Seq<char>, s: Seq<char>, st: LexerState, b: int, e: int)
    requires
        positions_wf(s.len() as int, st, b, e),
    ensures
        lex_run(w + s, st, b + w.len(), e + w.len()) == shifted(lex_run(s, st, b, e), w.len() as int),
    decreases s.len() - e, state_rank(st),
{
    lemma_step_shift(w, s, st, b, e);
    lemma_lex_step_wf(s, st, b, e);
    match lex_step(s, st, b, e) {
        LexStep::Next(st2, b2, e2) => {
            if e < e2 <= s.len() || (e2 == e && state_rank(st2) < state_rank(st)) {
                lemma_lex_shift(w, s, st2, b2, e2);
            }
        },
        _ => {},
    }
}

/// Text put before the text being read leaves the tokens as they are.
pub proof fn lemma_token_run_shift(w: Seq<char>, s: Seq<char>, st: LexerState, b: int, e: int)
    requires
        positions_wf(s.len() as int, st, b, e),
    ensures
        token_run(w + s, st, b + w.len(), e + w.len()) == token_run(s, st, b, e),
    decreases s.len() + 2 - e,
{
    lemma_lex_shift(w, s, st, b, e);
    lemma_lex_run_progress(s, st, b, e);
    let (r, st2, b2, e2) = lex_run(s, st, b, e);
    if r is Ok && !(r->Ok_0 is Eof) && e < e2 && e2 <= s.len() + 1 {
        lemma_token_run_shift(w, s, st2, b2, e2);
    }
}

proof fn lemma_skip_blanks(t: Seq<char>, j: int, k: int)
    requires
        0 <= j <= k <= t.len(),
        forall|i: int| j <= i < k ==> is_blank(#[trigger] t[i]),
    ensures
        lex_run(t, LexerState::Start, j, j) == lex_run(t, LexerState::Start, k, k),
    decreases k - j,
{
    if j < k {
        assert(is_blank(t[j]));
        lemma_skip_blanks(t, j + 1, k);
    }
}

/// Blanks before the text do not change its tokens.
pub proof fn lemma_leading_blanks(w: Seq<char>, s: Seq<char>)
    requires
        forall|i: int| 0 <= i < w.len() ==> is_blank(#[trigger] w[i]),
    ensures
        token_run(w + s, LexerState::Start, 0, 0) == token_run(s, LexerState::Start, 0, 0),
{
    let t = w + s;
    let k = w.len() as int;
    assert forall|i: int| 0 <= i < k implies is_blank(#[trigger] t[i]) by {
        assert(t[i] == w[i]);
    }
    lemma_skip_blanks(t, 0, k);
    lemma_lex_shift(w, s, LexerState::Start, 0, 0);
    lemma_lex_run_progress(s, LexerState::Start, 0, 0);
    lemma_token_run_shift(w, s, LexerState::Start, 0, 0);
    let (r, st2, b2, e2) = lex_run(s, LexerState::Start, 0, 0);
    if r is Ok && !(r->Ok_0 is Eof) && 0 < e2 && e2 <= s.len() + 1 {
        assert(token_run(t, LexerState::Start, 0, 0) == seq![r] + token_run(t, st2, b2 + k, e2 + k));
        assert(token_run(t, LexerState::Start, k, k) == seq![r] + token_run(t, st2, b2 + k, e2 + k));
    }
}

proof fn lemma_blank_tail_start(t: Seq<char>, n: int, p: int)
    requires
        0 <= n <= p <= t.len(),
        forall|i: int| n <= i < t.len() ==> is_blank(#[trigger] t[i]),
    ensures
        lex_run(t, LexerState::Start, p, p).0 == Ok::<TokenView, LexError>(TokenView::Eof),
{
    lemma_skip_blanks(t, p, t.len() as int);
}

proof fn lemma_blank_tail_string(t: Seq<char>, n: int, b: int, p: int)
    requires
        0 <= n <= p <= t.len(),
        0 <= b <= p,
        forall|i: int| n <= i < t.len() ==> is_blank(#[trigger] t[i]),
    ensures
        lex_run(t, LexerState::StringLiteral, b, p).0 == Ok::<TokenView, LexError>(TokenView::Eof),
    decreases t.len() - p,
{
    if p < t.len() {
        assert(is_blank(t[p]));
        lemma_blank_tail_string(t, n, b, p + 1);
    }
}

proof fn lemma_blank_tail_comment(t: Seq<char>, n: int, b: int, p: int)
    requires
        0 <= n <= p <= t.len(),
        0 <= b <= p,
        forall|i: int| n <= i < t.len() ==> is_blank(#[trigger] t[i]),
    ensures
        lex_run(t, LexerState::Comment, b, p).0 == Ok::<TokenView, LexError>(TokenView::Eof),
    decreases t.len() - p,
{
    if p < t.len() {
        assert(is_blank(t[p]));
        if t[p] == '\n' {
            lemma_blank_tail_start(t, n, p);
        } else if p + 1 < t.len() {
            lemma_blank_tail_comment(t, n, b, p + 1);
        }
    }
}

/// Blanks after the text being read change no token and no error; where
/// the text ends, they end it too.
proof fn lemma_lex_blank_tail(s: Seq<char>, w: Seq<char>, st: LexerState, b: int, e: int)
    requires
        positions_wf(s.len() as int, st, b, e),
        e <= s.len(),
        forall|i: int| 0 <= i < w.len() ==> is_blank(#[trigger] w[i]),
    ensures
        ({
            let x = lex_run(s, st, b, e);
            let y = lex_run(s + w, st, b, e);
            &&& (x.0 is Ok && !(x.0->Ok_0 is Eof)) ==> (y == x && x.1 == LexerState::Start && x.3 <= s.len())
            &&& (x.0 is Err || x.0 == Ok::<TokenView, LexError>(TokenView::Eof)) ==> y.0 == x.0
        }),
    decreases s.len() - e, state_rank(st),
{
    let t = s + w;
    let n = s.len() as int;
    if w.len() == 0 {
        assert(t =~= s);
        lemma_lex_step_wf(s, st, b, e);
        if lex_step(s, st, b, e) is Next {
            let (st2, b2, e2) = (lex_step(s, st, b, e)->Next_0, lex_step(s, st, b, e)->Next_1, lex_step(s, st, b, e)->Next_2);
            if e < e2 <= s.len() || (e2 == e && state_rank(st2) < state_rank(st)) {
                lemma_lex_blank_tail(s, w, st2, b2, e2);
            }
        }
        return;
    }
    assert forall|i: int| n <= i < t.len() implies is_blank(#[trigger] t[i]) by {
        assert(t[i] == w[i - n]);
    }
    assert(t.subrange(b, e) =~= s.subrange(b, e));
    lemma_lex_step_wf(s, st, b, e);
    if e < n {
        assert(t[e] == s[e]);
        assert(char_at(t, e) == char_at(s, e));
        if st == LexerState::Comment && e + 1 >= n && s[e] != '\n' && is_ascii_char(s[e]) {
            lemma_blank_tail_comment(t, n, b, e + 1);
        } else {
            assert(lex_step(t, st, b, e) == lex_step(s, st, b, e));
            if lex_step(s, st, b, e) is Next {
                let (st2, b2, e2) = (lex_step(s, st, b, e)->Next_0, lex_step(s, st, b, e)->Next_1, lex_step(s, st, b, e)->Next_2);
                if e < e2 <= s.len() || (e2 == e && state_rank(st2) < state_rank(st)) {
                    lemma_lex_blank_tail(s, w, st2, b2, e2);
                }
            }
        }
    } else {
        assert(is_blank(t[n]));
        assert(char_at(s, e) is None);
        assert(char_at(t, e) == Some(t[n]));
        match st {
            LexerState::Start => {
                lemma_blank_tail_start(t, n, n);
            },
            LexerState::Comment => {
                lemma_blank_tail_comment(t, n, b, n);
            },
            LexerState::StringLiteral => {
                lemma_blank_tail_string(t, n, b, n);
            },
            _ => {
                assert(lex_step(t, st, b, e) == lex_step(s, st, b, e));
            },
        }
    }
}

proof fn lemma_token_run_blank_tail(s: Seq<char>, w: Seq<char>, st: LexerState, b: int, e: int)
    requires
        positions_wf(s.len() as int, st, b, e),
        e <= s.len(),
        forall|i: int| 0 <= i < w.len() ==> is_blank(#[trigger] w[i]),
    ensures
        token_run(s + w, st, b, e) == token_run(s, st, b, e),
    decreases s.len() + 2 - e,
{
    lemma_lex_blank_tail(s, w, st, b, e);
    lemma_lex_run_progress(s, st, b, e);
    let (r, st2, b2, e2) = lex_run(s, st, b, e);
    if r is Ok && !(r->Ok_0 is Eof) && e < e2 && e2 <= s.len() + 1 {
        lemma_token_run_blank_tail(s, w, st2, b2, e2);
    }
}

/// Blanks after the text do not change its tokens.
pub proof fn lemma_trailing_blanks(s: Seq<char>, w: Seq<char>)
    requires
        forall|i: int| 0 <= i < w.len() ==> is_blank(#[trigger] w[i]),
    ensures
        token_run(s + w, LexerState::Start, 0, 0) == token_run(s, LexerState::Start, 0, 0),
{
    lemma_token_run_blank_tail(s, w, LexerState::Start, 0, 0);
}

/// Blanks around the text do not change its tokens: the lexer gives the
/// same tokens, up to and including the end of the file or the first
/// error.
pub proof fn lemma_surrounding_blanks(w1: Seq<char>, s: Seq<char>, w2: Seq<char>)
    requires
        forall|i: int| 0 <= i < w1.len() ==> is_blank(#[trigger] w1[i]),
        forall|i: int| 0 <= i < w2.len() ==> is_blank(#[trigger] w2[i]),
    ensures
        token_run(w1 + s + w2, LexerState::Start, 0, 0) == token_run(s, LexerState::Start, 0, 0),
{
    assert(w1 + s + w2 =~= w1 + (s + w2));
    lemma_leading_blanks(w1, s + w2);
    lemma_trailing_blanks(s, w2);
}

/// The positions that a lexer over `len` characters can hold.
pub open spec fn positions_wf(len: int, st: LexerState, b: int, e: int) -> bool {
    &&& 0 <= b <= e <= len + 1
    &&& (st == LexerState::Start ==> b == e && e <= len)
    &&& (e == len + 1 ==> st == LexerState::Comment)
}

proof fn lemma_lex_step_wf(s: Seq<char>, st: LexerState, b: int, e: int)
    requires
        positions_wf(s.len() as int, st, b, e),
    ensures
        match lex_step(s, st, b, e) {
            LexStep::Next(st2, b2, e2) => positions_wf(s.len() as int, st2, b2, e2) && (e < e2
                <= s.len() || (e2 == e && state_rank(st2) < state_rank(st))),
            LexStep::Emit(_, st2, b2, e2) => positions_wf(s.len() as int, st2, b2, e2) && e <= e2,
            LexStep::Fail(_) => true,
        },
{
}

/// The lexer of project files.
pub struct Lexer<'a> {
    input: &'a str,
    chars: Vec<char>,
    begin: usize,
    end: usize,
    state: LexerState,
}

impl<'a> Lexer<'a> {
    /// The text being read.
    pub closed spec fn text(&self) -> Seq<char> {
        self.chars@
    }

    /// The state of the lexer.
    pub closed spec fn lex_state(&self) -> LexerState {
        self.state
    }

    /// Where the current token starts.
    pub closed spec fn token_begin(&self) -> int {
        self.begin as int
    }

    /// Where the lexer reads next.
    pub closed spec fn cursor(&self) -> int {
        self.end as int
    }

    /// The lexer's positions are consistent with its text.
    pub closed spec fn wf(&self) -> bool {
        &&& self.chars@ == self.input@
        &&& self.chars@.len() < usize::MAX
        &&& positions_wf(self.chars@.len() as int, self.state, self.begin as int, self.end as int)
    }

    /// What the next call of `next_token` gives.
    pub open spec fn spec_next(&self) -> (Result<TokenView, LexError>, LexerState, int, int) {
        lex_run(self.text(), self.lex_state(), self.token_begin(), self.cursor())
    }

    /// A lexer at the start of `input`.
    pub fn new(input: &'a String) -> (lexer: Self)
        requires
            input@.len() < usize::MAX,
        ensures
            lexer.wf(),
            lexer.text() == input@,
            lexer.lex_state() == LexerState::Start,
            lexer.token_begin() == 0,
            lexer.cursor() == 0,
    {
        let s = input.as_str();
        let chars = chars_of(s);
        Lexer { input: s, chars, begin: 0, end: 0, state: LexerState::Start }
    }

    fn char_at(&self, i: usize) -> (r: Option<char>)
        ensures
            r == char_at(self.chars@, i as int),
    {
        if i < self.chars.len() {
            Some(self.chars[i])
        } else {
            None
        }
    }

    fn lookup_command(&self, b: usize, e: usize) -> (r: Option<CommandType>)
        requires
            b <= e <= self.chars@.len(),
        ensures
            r == command_of(self.chars@.subrange(b as int, e as int)),
    {
        let ghost w = self.chars@.subrange(b as int, e as int);
        let n = e - b;
        if n == 4 && self.chars[b] == 'n' && self.chars[b + 1] == 'a' && self.chars[b + 2] == 'm'
            && self.chars[b + 3] == 'e' {
            assert(w =~= seq!['n', 'a', 'm', 'e']);
            return Some(CommandType::Name);
        }
        if n == 4 && self.chars[b] == 'n' && self.chars[b + 1] == 'o' && self.chars[b + 2] == 'd'
            && self.chars[b + 3] == 'e' {
            assert(w =~= seq!['n', 'o', 'd', 'e']);
            return Some(CommandType::Node);
        }
        if n == 5 && self.chars[b] == 'p' && self.chars[b + 1] == 'a' && self.chars[b + 2] == 'r'
            && self.chars[b + 3] == 'a' && self.chars[b + 4] == 'm' {
            assert(w =~= seq!['p', 'a', 'r', 'a', 'm']);
            return Some(CommandType::Param);
        }
        if n == 4 && self.chars[b] == 'p' && self.chars[b + 1] == 'a' && self.chars[b + 2] == 't'
            && self.chars[b + 3] == 'h' {
            assert(w =~= seq!['p', 'a', 't', 'h']);
            return Some(CommandType::Path);
        }
        if n == 8 && self.chars[b] == 'p' && self.chars[b + 1] == 'r' && self.chars[b + 2] == 'o'
            && self.chars[b + 3] == 'p' && self.chars[b + 4] == 'e' && self.chars[b + 5] == 'r'
            && self.chars[b + 6] == 't' && self.chars[b + 7] == 'y' {
            assert(w =~= seq!['p', 'r', 'o', 'p', 'e', 'r', 't', 'y']);
            return Some(CommandType::Property);
        }
        proof {
            if w.len() == 4 {
                assert(w[0] == self.chars@[b as int]);
                assert(w[1] == self.chars@[b + 1]);
                assert(w[2] == self.chars@[b + 2]);
                assert(w[3] == self.chars@[b + 3]);
                assert(w != seq!['n', 'a', 'm', 'e'] ==> exists|i: int|
                    0 <= i < 4 && w[i] != seq!['n', 'a', 'm', 'e'][i]);
                if w == seq!['n', 'a', 'm', 'e'] {
                    assert(w[0] == 'n');
                }
            }
        }
        None
    }

    /// One step of the lexer: `None` to go on, or what the call returns.
    fn step(&mut self) -> (r: Option<Result<Token, LexError>>)
        requires
            old(self).wf(),
        ensures
            final(self).chars@ == old(self).chars@,
            final(self).input == old(self).input,
            match lex_step(old(self).chars@, old(self).state, old(self).begin as int, old(self).end as int) {
                LexStep::Next(st2, b2, e2) => r is None && final(self).state == st2
                    && final(self).begin == b2 && final(self).end == e2,
                LexStep::Emit(t, st2, b2, e2) => r matches Some(Ok(tok)) && tok@ == t
                    && final(self).state == st2 && final(self).begin == b2 && final(self).end == e2,
                LexStep::Fail(err) => r == Some(Err::<Token, LexError>(err)) && final(self).state
                    == old(self).state && final(self).begin == old(self).begin && final(self).end
                    == old(self).end,
            },
    {
        match self.state {
            LexerState::Start => self.step_start(),
            LexerState::Command => self.step_command(),
            LexerState::Comment => self.step_comment(),
            LexerState::Integer => self.step_integer(),
            LexerState::Float => self.step_float(),
            LexerState::StringLiteral => self.step_string(),
        }
    }

    fn step_start(&mut self) -> (r: Option<Result<Token, LexError>>)
        requires
            old(self).wf(),
            old(self).state == LexerState::Start,
        ensures
            final(self).chars@ == old(self).chars@,
            final(self).input == old(self).input,
            match lex_step(old(self).chars@, old(self).state, old(self).begin as int, old(self).end as int) {
                LexStep::Next(st2, b2, e2) => r is None && final(self).state == st2
                    && final(self).begin == b2 && final(self).end == e2,
                LexStep::Emit(t, st2, b2, e2) => r matches Some(Ok(tok)) && tok@ == t
                    && final(self).state == st2 && final(self).begin == b2 && final(self).end == e2,
                LexStep::Fail(err) => r == Some(Err::<Token, LexError>(err)) && final(self).state
                    == old(self).state && final(self).begin == old(self).begin && final(self).end
                    == old(self).end,
            },
    {
        let e = self.end;
        match self.char_at(e) {
            None => Some(Ok(Token::EOF)),
            Some(c) => {
                if c == ' ' || c == '\n' || c == '\t' || c == '\r' {
                    self.begin = e + 1;
                    self.end = e + 1;
                    None
                } else if c == ';' {
                    self.begin = e + 1;
                    self.end = e + 1;
                    Some(Ok(Token::SemiColon))
                } else if c == '{' {
                    self.begin = e + 1;
                    self.end = e + 1;
                    Some(Ok(Token::OpenBrace))
                } else if c == '}' {
                    self.begin = e + 1;
                    self.end = e + 1;
                    Some(Ok(Token::CloseBrace))
                } else if 'a' <= c && c <= 'z' {
                    self.state = LexerState::Command;
                    self.begin = e;
                    self.end = e + 1;
                    None
                } else if c == '-' || ('0' <= c && c <= '9') {
                    self.state = LexerState::Integer;
                    self.begin = e;
                    self.end = e + 1;
                    None
                } else if c == '#' {
                    self.state = LexerState::Comment;
                    self.begin = e;
                    self.end = e + 1;
                    None
                } else if c == '"' {
                    self.state = LexerState::StringLiteral;
                    self.begin = e + 1;
                    self.end = e + 1;
                    None
                } else {
                    Some(Err(LexError::UnrecognizedCharacter))
                }
            },
        }
    }

    fn step_command(&mut self) -> (r: Option<Result<Token, LexError>>)
        requires
            old(self).wf(),
            old(self).state == LexerState::Command,
        ensures
            final(self).chars@ == old(self).chars@,
            final(self).input == old(self).input,
            match lex_step(old(self).chars@, old(self).state, old(self).begin as int, old(self).end as int) {
                LexStep::Next(st2, b2, e2) => r is None && final(self).state == st2
                    && final(self).begin == b2 && final(self).end == e2,
                LexStep::Emit(t, st2, b2, e2) => r matches Some(Ok(tok)) && tok@ == t
                    && final(self).state == st2 && final(self).begin == b2 && final(self).end == e2,
                LexStep::Fail(err) => r == Some(Err::<Token, LexError>(err)) && final(self).state
                    == old(self).state && final(self).begin == old(self).begin && final(self).end
                    == old(self).end,
            },
    {
        let b = self.begin;
        let e = self.end;
        match self.char_at(e) {
            Some(c) if 'a' <= c && c <= 'z' => {
                self.end = e + 1;
                None
            },
            _ => {
                match self.lookup_command(b, e) {
                    Some(cmd) => {
                        self.begin = e;
                        self.state = LexerState::Start;
                        Some(Ok(Token::Command(cmd)))
                    },
                    None => Some(Err(LexError::UnknownCommand)),
                }
            },
        }
    }

    fn step_comment(&mut self) -> (r: Option<Result<Token, LexError>>)
        requires
            old(self).wf(),
            old(self).state == LexerState::Comment,
        ensures
            final(self).chars@ == old(self).chars@,
            final(self).input == old(self).input,
            match lex_step(old(self).chars@, old(self).state, old(self).begin as int, old(self).end as int) {
                LexStep::Next(st2, b2, e2) => r is None && final(self).state == st2
                    && final(self).begin == b2 && final(self).end == e2,
                LexStep::Emit(t, st2, b2, e2) => r matches Some(Ok(tok)) && tok@ == t
                    && final(self).state == st2 && final(self).begin == b2 && final(self).end == e2,
                LexStep::Fail(err) => r == Some(Err::<Token, LexError>(err)) && final(self).state
                    == old(self).state && final(self).begin == old(self).begin && final(self).end
                    == old(self).end,
            },
    {
        let e = self.end;
        if e > self.chars.len() {
            return Some(Err(LexError::PastEnd));
        }
        match self.char_at(e) {
            Some(c) if c == '\n' => {
                self.begin = e;
                self.state = LexerState::Start;
                None
            },
            Some(c) if c >= '\u{80}' => Some(Err(LexError::NonAsciiText)),
            _ => {
                self.end = e + 1;
                if e + 1 >= self.chars.len() {
                    Some(Ok(Token::EOF))
                } else {
                    None
                }
            },
        }
    }

    fn step_integer(&mut self) -> (r: Option<Result<Token, LexError>>)
        requires
            old(self).wf(),
            old(self).state == LexerState::Integer,
        ensures
            final(self).chars@ == old(self).chars@,
            final(self).input == old(self).input,
            match lex_step(old(self).chars@, old(self).state, old(self).begin as int, old(self).end as int) {
                LexStep::Next(st2, b2, e2) => r is None && final(self).state == st2
                    && final(self).begin == b2 && final(self).end == e2,
                LexStep::Emit(t, st2, b2, e2) => r matches Some(Ok(tok)) && tok@ == t
                    && final(self).state == st2 && final(self).begin == b2 && final(self).end == e2,
                LexStep::Fail(err) => r == Some(Err::<Token, LexError>(err)) && final(self).state
                    == old(self).state && final(self).begin == old(self).begin && final(self).end
                    == old(self).end,
            },
    {
        let b = self.begin;
        let e = self.end;
        match self.char_at(e) {
            Some(c) if '0' <= c && c <= '9' => {
                self.end = e + 1;
                None
            },
            Some(c) if c == '.' => {
                self.state = LexerState::Float;
                self.end = e + 1;
                None
            },
            _ => {
                match parse_i32_range(&self.chars, b, e) {
                    Some(n) => {
                        self.state = LexerState::Start;
                        self.begin = e;
                        Some(Ok(Token::IntNumber(n)))
                    },
                    None => Some(Err(LexError::InvalidInteger)),
                }
            },
        }
    }

    fn step_float(&mut self) -> (r: Option<Result<Token, LexError>>)
        requires
            old(self).wf(),
            old(self).state == LexerState::Float,
        ensures
            final(self).chars@ == old(self).chars@,
            final(self).input == old(self).input,
            match lex_step(old(self).chars@, old(self).state, old(self).begin as int, old(self).end as int) {
                LexStep::Next(st2, b2, e2) => r is None && final(self).state == st2
                    && final(self).begin == b2 && final(self).end == e2,
                LexStep::Emit(t, st2, b2, e2) => r matches Some(Ok(tok)) && tok@ == t
                    && final(self).state == st2 && final(self).begin == b2 && final(self).end == e2,
                LexStep::Fail(err) => r == Some(Err::<Token, LexError>(err)) && final(self).state
                    == old(self).state && final(self).begin == old(self).begin && final(self).end
                    == old(self).end,
            },
    {
        let b = self.begin;
        let e = self.end;
        match self.char_at(e) {
            Some(c) if ('0' <= c && c <= '9') || c == 'e' || c == '-' => {
                self.end = e + 1;
                None
            },
            _ => {
                if is_float_literal_range(&self.chars, b, e) {
                    let text = substring(self.input, b, e);
                    self.state = LexerState::Start;
                    self.begin = e;
                    Some(Ok(Token::FloatNumber(text)))
                } else {
                    Some(Err(LexError::InvalidFloat))
                }
            },
        }
    }

    fn step_string(&mut self) -> (r: Option<Result<Token, LexError>>)
        requires
            old(self).wf(),
            old(self).state == LexerState::StringLiteral,
        ensures
            final(self).chars@ == old(self).chars@,
            final(self).input == old(self).input,
            match lex_step(old(self).chars@, old(self).state, old(self).begin as int, old(self).end as int) {
                LexStep::Next(st2, b2, e2) => r is None && final(self).state == st2
                    && final(self).begin == b2 && final(self).end == e2,
                LexStep::Emit(t, st2, b2, e2) => r matches Some(Ok(tok)) && tok@ == t
                    && final(self).state == st2 && final(self).begin == b2 && final(self).end == e2,
                LexStep::Fail(err) => r == Some(Err::<Token, LexError>(err)) && final(self).state
                    == old(self).state && final(self).begin == old(self).begin && final(self).end
                    == old(self).end,
            },
    {
        let b = self.begin;
        let e = self.end;
        match self.char_at(e) {
            None => Some(Ok(Token::EOF)),
            Some(c) => {
                if c == '"' {
                    let text = substring(self.input, b, e);
                    self.begin = e + 1;
                    self.end = e + 1;
                    self.state = LexerState::Start;
                    Some(Ok(Token::StringLiteral(text)))
                } else if c >= '\u{80}' {
                    Some(Err(LexError::NonAsciiText))
                } else {
                    self.end = e + 1;
                    None
                }
            },
        }
    }

    /// Reads the next token. An error stands where reading the file cannot
    /// go on; the lexer is then left where the error was found.
    pub fn next_token(&mut self) -> (r: Result<Token, LexError>)
        requires
            old(self).wf(),
        ensures
            final(self).wf(),
            final(self).text() == old(self).text(),
            old(self).spec_next() == (
                match r {
                    Ok(t) => Ok(t@),
                    Err(err) => Err(err),
                },
                final(self).lex_state(),
                final(self).token_begin(),
                final(self).cursor(),
            ),
    {
        let ghost s = self.chars@;
        let ghost input = self.input;
        let ghost goal = lex_run(s, self.state, self.begin as int, self.end as int);
        loop
            invariant
                self.wf(),
                self.chars@ == s,
                s == old(self).text(),
                goal == old(self).spec_next(),
                self.input == input,
                lex_run(s, self.state, self.begin as int, self.end as int) == goal,
            decreases s.len() - self.end, state_rank(self.state),
        {
            proof {
                lemma_lex_step_wf(s, self.state, self.begin as int, self.end as int);
            }
            match self.step() {
                None => {},
                Some(r) => {
                    return r;
                },
            }
        }
    }
}


/// The states in which a call of `next_token` leaves the lexer.
pub open spec fn resting(st: LexerState) -> bool {
    st == LexerState::Start || st == LexerState::Comment || st == LexerState::StringLiteral
}

/// Reading a token never moves the cursor back, leaves the lexer in a
/// resting state, and moves the cursor on for every token but the end of
/// the file.
pub proof fn lemma_lex_run_progress(s: Seq<char>, st: LexerState, b: int, e: int)
    requires
        positions_wf(s.len() as int, st, b, e),
    ensures
        ({
            let (r, st2, b2, e2) = lex_run(s, st, b, e);
            &&& positions_wf(s.len() as int, st2, b2, e2)
            &&& e <= e2
            &&& (r is Ok ==> resting(st2))
            &&& (resting(st) ==> (r matches Ok(t) && t !is Eof ==> e < e2))
        }),
    decreases s.len() - e, state_rank(st),
{
    lemma_lex_step_wf(s, st, b, e);
    match lex_step(s, st, b, e) {
        LexStep::Next(st2, b2, e2) => {
            lemma_lex_run_progress(s, st2, b2, e2);
        },
        _ => {},
    }
}

/// A node that a project file declares: the plug-in it comes from and the
/// name it asks for (empty when it asks for none).
#[derive(Debug, PartialEq, Clone)]
pub struct NodeDeclaration {
    pub plugin: String,
    pub name: String,
}

impl View for NodeDeclaration {
    type V = (Seq<char>, Seq<char>);

    open spec fn view(&self) -> (Seq<char>, Seq<char>) {
        (self.plugin@, self.name@)
    }
}

/// Why a project file cannot be read.
#[derive(Debug, Clone, Copy, PartialEq, Eq, Structural)]
pub enum ParseError {
    /// The lexer stopped.
    Lex(LexError),
    /// At top level, a token that is not a command.
    ExpectedCommand,
    /// After `node`, something else than the quoted plug-in name.
    ExpectedPluginName,
    /// After the plug-in name, something else than `{` or `;`.
    ExpectedNodeBody,
    /// After `name` and its value, something else than `;`.
    ExpectedSemicolonAfterName,
    /// After `param`, something else than the quoted parameter name.
    ExpectedParameterName,
    /// A floating-point parameter value.
    FloatParameter,
    /// More than three values for one parameter.
    TooManyValues,
    /// In a parameter's values, a token that is neither a number nor `;`.
    UnexpectedParameterToken,
}

/// Where the reader of a project file stands.
pub enum ParseState {
    /// Between top-level commands.
    Top,
    /// After `node`: the plug-in name comes.
    NodePlugin,
    /// After the plug-in name: `{` or `;` comes.
    NodeOpen(Seq<char>),
    /// Inside a node's block, with the plug-in and the name read so far.
    Body(Seq<char>, Seq<char>),
    /// After `name`: its value comes.
    NameValue(Seq<char>, Seq<char>),
    /// After the value of `name`: `;` comes.
    NameEnd(Seq<char>, Seq<char>),
    /// After `param`: the parameter name comes.
    ParamName,
    /// Reading a parameter's values, with how many integers were read.
    ParamValues(int),
}

/// What a token does to the reader.
pub enum ParseMove {
    /// Go on in this state with these declarations.
    Go(ParseState, Seq<(Seq<char>, Seq<char>)>),
    /// Stop with this result.
    Stop(Result<Seq<(Seq<char>, Seq<char>)>, ParseError>),
}

/// Orders the states that the reader enters on the end of the file.
pub open spec fn parse_rank(ps: ParseState) -> int {
    match ps {
        ParseState::Top => 0,
        ParseState::NameValue(_, _) => 2,
        _ => 1,
    }
}

/// How the reader in state `ps`, having declared `acc`, takes token `t`.
pub open spec fn parse_move(ps: ParseState, t: TokenView, acc: Seq<(Seq<char>, Seq<char>)>) -> ParseMove {
    match ps {
        ParseState::Top => match t {
            TokenView::Command(CommandType::Node) => ParseMove::Go(ParseState::NodePlugin, acc),
            TokenView::Command(_) => ParseMove::Go(ParseState::Top, acc),
            TokenView::Eof => ParseMove::Stop(Ok(acc)),
            _ => ParseMove::Stop(Err(ParseError::ExpectedCommand)),
        },
        ParseState::NodePlugin => match t {
            TokenView::StringLiteral(p) => ParseMove::Go(ParseState::NodeOpen(p), acc),
            _ => ParseMove::Stop(Err(ParseError::ExpectedPluginName)),
        },
        ParseState::NodeOpen(p) => match t {
            TokenView::OpenBrace => ParseMove::Go(ParseState::Body(p, Seq::empty()), acc),
            TokenView::SemiColon => ParseMove::Go(ParseState::Top, acc.push((p, Seq::empty()))),
            _ => ParseMove::Stop(Err(ParseError::ExpectedNodeBody)),
        },
        ParseState::Body(p, n) => match t {
            TokenView::Command(CommandType::Name) => ParseMove::Go(ParseState::NameValue(p, n), acc),
            TokenView::Command(CommandType::Param) => ParseMove::Go(ParseState::ParamName, acc),
            _ => ParseMove::Go(ParseState::Top, acc.push((p, n))),
        },
        ParseState::NameValue(p, n) => match t {
            TokenView::StringLiteral(x) => ParseMove::Go(ParseState::NameEnd(p, x), acc),
            _ => ParseMove::Go(ParseState::NameEnd(p, n), acc),
        },
        ParseState::NameEnd(p, n) => match t {
            TokenView::SemiColon => ParseMove::Go(ParseState::Body(p, n), acc),
            _ => ParseMove::Stop(Err(ParseError::ExpectedSemicolonAfterName)),
        },
        ParseState::ParamName => match t {
            TokenView::StringLiteral(_) => ParseMove::Go(ParseState::ParamValues(0), acc),
            _ => ParseMove::Stop(Err(ParseError::ExpectedParameterName)),
        },
        ParseState::ParamValues(k) => match t {
            TokenView::FloatNumber(_) => ParseMove::Stop(Err(ParseError::FloatParameter)),
            TokenView::IntNumber(_) => if k > 2 {
                ParseMove::Stop(Err(ParseError::TooManyValues))
            } else {
                ParseMove::Go(ParseState::ParamValues(k + 1), acc)
            },
            TokenView::SemiColon => ParseMove::Go(ParseState::ParamValues(k), acc),
            _ => ParseMove::Stop(Err(ParseError::UnexpectedParameterToken)),
        },
    }
}

/// The result of reading `s` on, from the lexer at (`st`, `b`, `e`) and the
/// reader in state `ps` with the declarations `acc`.
pub open spec fn parse_run(
    s: Seq<char>,
    st: LexerState,
    b: int,
    e: int,
    ps: ParseState,
    acc: Seq<(Seq<char>, Seq<char>)>,
) -> Result<Seq<(Seq<char>, Seq<char>)>, ParseError>
    decreases s.len() + 2 - e, parse_rank(ps),
{
    let (r, st2, b2, e2) = lex_run(s, st, b, e);
    match r {
        Err(le) => Err(ParseError::Lex(le)),
        Ok(t) => match parse_move(ps, t, acc) {
            ParseMove::Stop(res) => res,
            ParseMove::Go(ps2, acc2) => if 0 <= e < e2 <= s.len() + 1 || (e == e2 && parse_rank(ps2)
                < parse_rank(ps)) {
                parse_run(s, st2, b2, e2, ps2, acc2)
            } else {
                Err(ParseError::Lex(LexError::PastEnd))
            },
        },
    }
}

/// The nodes that the project file `s` declares, in order, or why it
/// cannot be read.
pub open spec fn spec_node_declarations(s: Seq<char>) -> Result<Seq<(Seq<char>, Seq<char>)>, ParseError> {
    parse_run(s, LexerState::Start, 0, 0, ParseState::Top, Seq::empty())
}

/// From a resting lexer, reading goes on with the token that the lexer
/// gives: the guard in [`parse_run`] always holds there.
pub proof fn lemma_parse_unfold(
    s: Seq<char>,
    st: LexerState,
    b: int,
    e: int,
    ps: ParseState,
    acc: Seq<(Seq<char>, Seq<char>)>,
)
    requires
        positions_wf(s.len() as int, st, b, e),
        resting(st),
    ensures
        ({
            let (r, st2, b2, e2) = lex_run(s, st, b, e);
            parse_run(s, st, b, e, ps, acc) == match r {
                Err(le) => Err(ParseError::Lex(le)),
                Ok(t) => match parse_move(ps, t, acc) {
                    ParseMove::Stop(res) => res,
                    ParseMove::Go(ps2, acc2) => parse_run(s, st2, b2, e2, ps2, acc2),
                },
            }
        }),
{
    lemma_lex_run_progress(s, st, b, e);
}

/// The error that reading a parameter's values ends with, from the lexer
/// in state `st` at (`b`, `e`), `k` integers having been read: values are
/// read until a token that is not an integer or `;`, or a fourth integer.
pub open spec fn param_values_error(s: Seq<char>, st: LexerState, b: int, e: int, k: int) -> ParseError
    decreases s.len() + 2 - e,
{
    let (r, st2, b2, e2) = lex_run(s, st, b, e);
    match r {
        Err(le) => ParseError::Lex(le),
        Ok(TokenView::FloatNumber(_)) => ParseError::FloatParameter,
        Ok(TokenView::IntNumber(_)) => if k > 2 {
            ParseError::TooManyValues
        } else if 0 <= e < e2 <= s.len() + 1 {
            param_values_error(s, st2, b2, e2, k + 1)
        } else {
            ParseError::Lex(LexError::PastEnd)
        },
        Ok(TokenView::SemiColon) => if 0 <= e < e2 <= s.len() + 1 {
            param_values_error(s, st2, b2, e2, k)
        } else {
            ParseError::Lex(LexError::PastEnd)
        },
        Ok(_) => ParseError::UnexpectedParameterToken,
    }
}

/// Reading a parameter's values ends with the error
/// [`param_values_error`] gives, whatever was declared before.
pub proof fn lemma_param_values(
    s: Seq<char>,
    st: LexerState,
    b: int,
    e: int,
    k: int,
    acc: Seq<(Seq<char>, Seq<char>)>,
)
    ensures
        parse_run(s, st, b, e, ParseState::ParamValues(k), acc) == Err::<
            Seq<(Seq<char>, Seq<char>)>,
            ParseError,
        >(param_values_error(s, st, b, e, k)),
    decreases s.len() + 2 - e,
{
    let (r, st2, b2, e2) = lex_run(s, st, b, e);
    if 0 <= e < e2 <= s.len() + 1 {
        match r {
            Ok(TokenView::IntNumber(_)) => {
                if k <= 2 {
                    lemma_param_values(s, st2, b2, e2, k + 1, acc);
                }
            },
            Ok(TokenView::SemiColon) => {
                lemma_param_values(s, st2, b2, e2, k, acc);
            },
            _ => {},
        }
    }
}

/// What reading the commands of a node's block gives, from the lexer in
/// state `st` at (`b`, `e`), with `n` the name set so far: the name that
/// the block sets and the lexer's state and positions after the token
/// that ends the block (`}` or any token but a command `name` or
/// `param`), or the error that stops the reading. Nothing after the block
/// matters.
pub open spec fn body_run(s: Seq<char>, st: LexerState, b: int, e: int, n: Seq<char>) -> Result<
    (Seq<char>, LexerState, int, int),
    ParseError,
>
    decreases s.len() + 2 - e,
{
    let (r, st2, b2, e2) = lex_run(s, st, b, e);
    match r {
        Err(le) => Err(ParseError::Lex(le)),
        Ok(TokenView::Command(CommandType::Name)) => {
            let (r3, st3, b3, e3) = lex_run(s, st2, b2, e2);
            match r3 {
                Err(le) => Err(ParseError::Lex(le)),
                Ok(t3) => {
                    let n2 = match t3 {
                        TokenView::StringLiteral(x) => x,
                        _ => n,
                    };
                    let (r4, st4, b4, e4) = lex_run(s, st3, b3, e3);
                    match r4 {
                        Err(le) => Err(ParseError::Lex(le)),
                        Ok(TokenView::SemiColon) => if 0 <= e < e4 <= s.len() + 1 {
                            body_run(s, st4, b4, e4, n2)
                        } else {
                            Err(ParseError::Lex(LexError::PastEnd))
                        },
                        Ok(_) => Err(ParseError::ExpectedSemicolonAfterName),
                    }
                },
            }
        },
        Ok(TokenView::Command(CommandType::Param)) => {
            let (r3, st3, b3, e3) = lex_run(s, st2, b2, e2);
            match r3 {
                Err(le) => Err(ParseError::Lex(le)),
                Ok(TokenView::StringLiteral(_)) => Err(param_values_error(s, st3, b3, e3, 0)),
                Ok(_) => Err(ParseError::ExpectedParameterName),
            }
        },
        Ok(_) => Ok((n, st2, b2, e2)),
    }
}

/// A result of reading declarations, with `a` put before them.
pub open spec fn prefixed(
    a: Seq<(Seq<char>, Seq<char>)>,
    r: Result<Seq<(Seq<char>, Seq<char>)>, ParseError>,
) -> Result<Seq<(Seq<char>, Seq<char>)>, ParseError> {
    match r {
        Ok(ds) => Ok(a + ds),
        Err(x) => Err(x),
    }
}

proof fn lemma_move_prefix(
    ps: ParseState,
    t: TokenView,
    a: Seq<(Seq<char>, Seq<char>)>,
    acc: Seq<(Seq<char>, Seq<char>)>,
)
    ensures
        match parse_move(ps, t, acc) {
            ParseMove::Go(ps2, acc2) => parse_move(ps, t, a + acc) == ParseMove::Go(ps2, a + acc2),
            ParseMove::Stop(res) => parse_move(ps, t, a + acc) == ParseMove::Stop(prefixed(a, res)),
        },
{
    assert forall|y: (Seq<char>, Seq<char>)| #[trigger] (a + acc).push(y) == a + acc.push(y) by {
        assert((a + acc).push(y) =~= a + acc.push(y));
    }
}

/// Declarations made before do not change what is read after them: they
/// stay in front.
pub proof fn lemma_parse_prefix(
    s: Seq<char>,
    st: LexerState,
    b: int,
    e: int,
    ps: ParseState,
    a: Seq<(Seq<char>, Seq<char>)>,
    acc: Seq<(Seq<char>, Seq<char>)>,
)
    ensures
        parse_run(s, st, b, e, ps, a + acc) == prefixed(a, parse_run(s, st, b, e, ps, acc)),
    decreases s.len() + 2 - e, parse_rank(ps),
{
    let (r, st2, b2, e2) = lex_run(s, st, b, e);
    if let Ok(t) = r {
        lemma_move_prefix(ps, t, a, acc);
        match parse_move(ps, t, acc) {
            ParseMove::Go(ps2, acc2) => {
                if 0 <= e < e2 <= s.len() + 1 || (e == e2 && parse_rank(ps2) < parse_rank(ps)) {
                    lemma_parse_prefix(s, st2, b2, e2, ps2, a, acc2);
                }
            },
            _ => {},
        }
    }
}

/// Text put before the text being read does not change what is read
/// from the same place.
pub proof fn lemma_parse_shift(
    w: Seq<char>,
    s: Seq<char>,
    st: LexerState,
    b: int,
    e: int,
    ps: ParseState,
    acc: Seq<(Seq<char>, Seq<char>)>,
)
    requires
        positions_wf(s.len() as int, st, b, e),
    ensures
        parse_run(w + s, st, b + w.len(), e + w.len(), ps, acc) == parse_run(s, st, b, e, ps, acc),
    decreases s.len() + 2 - e, parse_rank(ps),
{
    lemma_lex_shift(w, s, st, b, e);
    lemma_lex_run_progress(s, st, b, e);
    let (r, st2, b2, e2) = lex_run(s, st, b, e);
    if let Ok(t) = r {
        match parse_move(ps, t, acc) {
            ParseMove::Go(ps2, acc2) => {
                if 0 <= e < e2 <= s.len() + 1 || (e == e2 && parse_rank(ps2) < parse_rank(ps)) {
                    lemma_parse_shift(w, s, st2, b2, e2, ps2, acc2);
                }
            },
            _ => {},
        }
    }
}

proof fn lemma_string_run_to(s: Seq<char>, b: int, e: int, j: int)
    requires
        0 <= b <= e <= j < s.len(),
        s[j] == '"',
        forall|i: int| e <= i < j ==> #[trigger] s[i] != '"' && is_ascii_char(s[i]),
    ensures
        lex_run(s, LexerState::StringLiteral, b, e) == (
            Ok::<TokenView, LexError>(TokenView::StringLiteral(s.subrange(b, j))),
            LexerState::Start,
            j + 1,
            j + 1,
        ),
    decreases j - e,
{
    if e < j {
        assert(s[e] != '"' && is_ascii_char(s[e]));
        lemma_string_run_to(s, b, e + 1, j);
    }
}

proof fn lemma_word_run(s: Seq<char>, b: int, e: int, j: int)
    requires
        0 <= b < e <= j < s.len(),
        forall|i: int| e <= i < j ==> #[trigger] is_lower(s[i]),
        !is_lower(s[j]),
    ensures
        lex_run(s, LexerState::Command, b, e) == lex_run(s, LexerState::Command, b, j),
    decreases j - e,
{
    if e < j {
        assert(is_lower(s[e]));
        lemma_word_run(s, b, e + 1, j);
    }
}

/// Reading a text that starts with `node "p"` comes to the token after
/// the plug-in name with nothing declared yet.
proof fn lemma_node_head(s: Seq<char>, p: Seq<char>)
    requires
        6 + p.len() < s.len(),
        s[0] == 'n' && s[1] == 'o' && s[2] == 'd' && s[3] == 'e' && s[4] == ' ' && s[5] == '"',
        forall|i: int| 0 <= i < p.len() ==> #[trigger] p[i] != '"' && is_ascii_char(p[i]),
        forall|i: int| 0 <= i < p.len() ==> #[trigger] s[6 + i] == p[i],
        s[6 + p.len() as int] == '"',
    ensures
        spec_node_declarations(s) == parse_run(
            s,
            LexerState::Start,
            7 + p.len() as int,
            7 + p.len() as int,
            ParseState::NodeOpen(p),
            Seq::empty(),
        ),
{
    let j: int = 6 + p.len() as int;
    // `node`
    lemma_word_run(s, 0, 1, 4);
    assert(s.subrange(0, 4) =~= seq!['n', 'o', 'd', 'e']);
    assert(lex_run(s, LexerState::Command, 0, 4) == (
        Ok::<TokenView, LexError>(TokenView::Command(CommandType::Node)),
        LexerState::Start,
        4int,
        4int,
    ));
    assert(lex_run(s, LexerState::Start, 0, 0) == lex_run(s, LexerState::Command, 0, 1));
    // `"p"`
    assert forall|i: int| 6 <= i < j implies #[trigger] s[i] != '"' && is_ascii_char(s[i]) by {
        assert(s[6 + (i - 6)] == p[i - 6]);
    }
    lemma_string_run_to(s, 6, 6, j);
    assert forall|i: int| 0 <= i < p.len() implies #[trigger] s.subrange(6, j)[i] == p[i] by {
        assert(s[6 + i] == p[i]);
    }
    assert(s.subrange(6, j) =~= p);
    assert(lex_run(s, LexerState::Start, 5, 5) == lex_run(s, LexerState::StringLiteral, 6, 6));
    assert(lex_run(s, LexerState::Start, 4, 4) == lex_run(s, LexerState::Start, 5, 5));
    assert(parse_run(s, LexerState::Start, 4, 4, ParseState::NodePlugin, Seq::empty())
        == parse_run(s, LexerState::Start, j + 1, j + 1, ParseState::NodeOpen(p), Seq::empty()));
    assert(parse_run(s, LexerState::Start, 0, 0, ParseState::Top, Seq::empty())
        == parse_run(s, LexerState::Start, 4, 4, ParseState::NodePlugin, Seq::empty()));
}

/// Once the text `w` has been read to its end at top level, with `a`
/// declared, the rest is read as a project file of its own, after `a`.
proof fn lemma_top_then_rest(w: Seq<char>, t: Seq<char>, a: Seq<(Seq<char>, Seq<char>)>)
    ensures
        parse_run(w + t, LexerState::Start, w.len() as int, w.len() as int, ParseState::Top, a)
            == prefixed(a, spec_node_declarations(t)),
{
    lemma_parse_shift(w, t, LexerState::Start, 0, 0, ParseState::Top, a);
    lemma_parse_prefix(t, LexerState::Start, 0, 0, ParseState::Top, a, Seq::empty());
    assert(a + Seq::<(Seq<char>, Seq<char>)>::empty() =~= a);
}

/// The text `node "p";`: a node of the plug-in `p` declared without a
/// block.
pub open spec fn bodiless_node(p: Seq<char>) -> Seq<char> {
    seq!['n', 'o', 'd', 'e', ' ', '"'] + p + seq!['"', ';']
}

/// A node declared without a block, `node "p";`, followed by any text:
/// the declarations are the node of `p`, with no name, and then the
/// declarations of the text that follows, or the error that text gives.
pub proof fn lemma_bodiless_node_then_rest(p: Seq<char>, t: Seq<char>)
    requires
        forall|i: int| 0 <= i < p.len() ==> #[trigger] p[i] != '"' && is_ascii_char(p[i]),
    ensures
        spec_node_declarations(bodiless_node(p) + t) == prefixed(
            seq![(p, Seq::<char>::empty())],
            spec_node_declarations(t),
        ),
{
    let w = bodiless_node(p);
    let s = w + t;
    let j: int = 6 + p.len() as int;
    let k = w.len() as int;
    assert(k == j + 2);
    assert forall|i: int| 0 <= i < k implies #[trigger] s[i] == w[i] by {}
    assert(s[0] == 'n' && s[1] == 'o' && s[2] == 'd' && s[3] == 'e' && s[4] == ' ' && s[5] == '"');
    assert(s[j] == '"' && s[j + 1] == ';');
    assert forall|i: int| 0 <= i < p.len() implies #[trigger] s[6 + i] == p[i] by {
        assert(s[6 + i] == w[6 + i]);
    }
    lemma_node_head(s, p);
    // `;`
    assert(lex_run(s, LexerState::Start, j + 1, j + 1) == (
        Ok::<TokenView, LexError>(TokenView::SemiColon),
        LexerState::Start,
        j + 2,
        j + 2,
    ));
    let acc1 = seq![(p, Seq::<char>::empty())];
    assert(acc1 =~= Seq::<(Seq<char>, Seq<char>)>::empty().push((p, Seq::<char>::empty())));
    assert(parse_run(s, LexerState::Start, j + 1, j + 1, ParseState::NodeOpen(p), Seq::empty())
        == parse_run(s, LexerState::Start, k, k, ParseState::Top, acc1));
    lemma_top_then_rest(w, t, acc1);
}

/// The text `node "p"{name "n";}`: a node of the plug-in `p` whose block
/// names it `n`.
pub open spec fn named_node(p: Seq<char>, n: Seq<char>) -> Seq<char> {
    seq!['n', 'o', 'd', 'e', ' ', '"'] + p + seq!['"', '{', 'n', 'a', 'm', 'e', ' ', '"'] + n
        + seq!['"', ';', '}']
}

/// A node whose block names it, `node "p"{name "n";}`, followed by any
/// text: the declarations are the node of `p` named `n`, and then the
/// declarations of the text that follows, or the error that text gives.
pub proof fn lemma_named_node_then_rest(p: Seq<char>, n: Seq<char>, t: Seq<char>)
    requires
        forall|i: int| 0 <= i < p.len() ==> #[trigger] p[i] != '"' && is_ascii_char(p[i]),
        forall|i: int| 0 <= i < n.len() ==> #[trigger] n[i] != '"' && is_ascii_char(n[i]),
    ensures
        spec_node_declarations(named_node(p, n) + t) == prefixed(
            seq![(p, n)],
            spec_node_declarations(t),
        ),
{
    let w = named_node(p, n);
    let s = w + t;
    let j: int = 6 + p.len() as int;
    let m: int = j + 8 + n.len() as int;
    let k = w.len() as int;
    assert(k == m + 3);
    assert forall|i: int| 0 <= i < k implies #[trigger] s[i] == w[i] by {}
    assert(s[0] == 'n' && s[1] == 'o' && s[2] == 'd' && s[3] == 'e' && s[4] == ' ' && s[5] == '"');
    assert forall|i: int| 0 <= i < p.len() implies #[trigger] s[6 + i] == p[i] by {
        assert(s[6 + i] == w[6 + i]);
    }
    assert(s[j] == '"' && s[j + 1] == '{' && s[j + 2] == 'n' && s[j + 3] == 'a' && s[j + 4] == 'm'
        && s[j + 5] == 'e' && s[j + 6] == ' ' && s[j + 7] == '"');
    assert(s[m] == '"' && s[m + 1] == ';' && s[m + 2] == '}');
    lemma_node_head(s, p);
    // `{`
    assert(lex_run(s, LexerState::Start, j + 1, j + 1) == (
        Ok::<TokenView, LexError>(TokenView::OpenBrace),
        LexerState::Start,
        j + 2,
        j + 2,
    ));
    assert(parse_run(s, LexerState::Start, j + 1, j + 1, ParseState::NodeOpen(p), Seq::empty())
        == parse_run(s, LexerState::Start, j + 2, j + 2, ParseState::Body(p, Seq::empty()), Seq::empty()));
    // `name`
    lemma_word_run(s, j + 2, j + 3, j + 6);
    assert(s.subrange(j + 2, j + 6) =~= seq!['n', 'a', 'm', 'e']);
    assert(lex_run(s, LexerState::Command, j + 2, j + 6) == (
        Ok::<TokenView, LexError>(TokenView::Command(CommandType::Name)),
        LexerState::Start,
        j + 6,
        j + 6,
    ));
    assert(lex_run(s, LexerState::Start, j + 2, j + 2) == lex_run(s, LexerState::Command, j + 2, j + 3));
    assert(parse_run(s, LexerState::Start, j + 2, j + 2, ParseState::Body(p, Seq::empty()), Seq::empty())
        == parse_run(s, LexerState::Start, j + 6, j + 6, ParseState::NameValue(p, Seq::empty()), Seq::empty()));
    // `"n"`
    assert forall|i: int| j + 8 <= i < m implies #[trigger] s[i] != '"' && is_ascii_char(s[i]) by {
        assert(s[i] == w[i]);
        assert(w[i] == n[i - j - 8]);
    }
    lemma_string_run_to(s, j + 8, j + 8, m);
    assert(s.subrange(j + 8, m) =~= n);
    assert(lex_run(s, LexerState::Start, j + 7, j + 7) == lex_run(s, LexerState::StringLiteral, j + 8, j + 8));
    assert(lex_run(s, LexerState::Start, j + 6, j + 6) == lex_run(s, LexerState::Start, j + 7, j + 7));
    assert(parse_run(s, LexerState::Start, j + 6, j + 6, ParseState::NameValue(p, Seq::empty()), Seq::empty())
        == parse_run(s, LexerState::Start, m + 1, m + 1, ParseState::NameEnd(p, n), Seq::empty()));
    // `;`
    assert(lex_run(s, LexerState::Start, m + 1, m + 1) == (
        Ok::<TokenView, LexError>(TokenView::SemiColon),
        LexerState::Start,
        m + 2,
        m + 2,
    ));
    assert(parse_run(s, LexerState::Start, m + 1, m + 1, ParseState::NameEnd(p, n), Seq::empty())
        == parse_run(s, LexerState::Start, m + 2, m + 2, ParseState::Body(p, n), Seq::empty()));
    // `}`
    assert(lex_run(s, LexerState::Start, m + 2, m + 2) == (
        Ok::<TokenView, LexError>(TokenView::CloseBrace),
        LexerState::Start,
        k,
        k,
    ));
    let acc1 = seq![(p, n)];
    assert(acc1 =~= Seq::<(Seq<char>, Seq<char>)>::empty().push((p, n)));
    assert(parse_run(s, LexerState::Start, m + 2, m + 2, ParseState::Body(p, n), Seq::empty())
        == parse_run(s, LexerState::Start, k, k, ParseState::Top, acc1));
    lemma_top_then_rest(w, t, acc1);
}

/// A top-level command other than `node` (such as `path`), followed by a
/// blank, declares nothing: the text after it is read as if it stood
/// alone.
pub proof fn lemma_other_command_then_rest(c: Seq<char>, t: Seq<char>)
    requires
        c.len() > 0,
        forall|i: int| 0 <= i < c.len() ==> #[trigger] is_lower(c[i]),
        command_of(c) is Some,
        command_of(c) != Some(CommandType::Node),
    ensures
        spec_node_declarations(c + seq![' '] + t) == spec_node_declarations(t),
{
    let w = c + seq![' '];
    let s = w + t;
    let k: int = c.len() as int;
    assert forall|i: int| 0 <= i <= k implies #[trigger] s[i] == w[i] by {}
    assert forall|i: int| 1 <= i < k implies #[trigger] is_lower(s[i]) by {
        assert(s[i] == c[i]);
    }
    assert(s[k] == ' ');
    assert(is_lower(s[0])) by {
        assert(s[0] == c[0]);
    }
    lemma_word_run(s, 0, 1, k);
    assert(s.subrange(0, k) =~= c);
    let cmd = command_of(c)->0;
    assert(lex_run(s, LexerState::Command, 0, k) == (
        Ok::<TokenView, LexError>(TokenView::Command(cmd)),
        LexerState::Start,
        k,
        k,
    ));
    assert(lex_run(s, LexerState::Start, 0, 0) == lex_run(s, LexerState::Command, 0, 1));
    assert(spec_node_declarations(s) == parse_run(s, LexerState::Start, k, k, ParseState::Top, Seq::empty()));
    // the blank
    assert(lex_run(s, LexerState::Start, k, k) == lex_run(s, LexerState::Start, k + 1, k + 1));
    lemma_parse_unfold(s, LexerState::Start, k, k, ParseState::Top, Seq::empty());
    lemma_parse_unfold(s, LexerState::Start, k + 1, k + 1, ParseState::Top, Seq::empty());
    lemma_parse_shift(w, t, LexerState::Start, 0, 0, ParseState::Top, Seq::empty());
}

/// Two nodes declared without blocks give two declarations, in order.
pub proof fn lemma_two_bodiless_nodes(p: Seq<char>, q: Seq<char>)
    requires
        forall|i: int| 0 <= i < p.len() ==> #[trigger] p[i] != '"' && is_ascii_char(p[i]),
        forall|i: int| 0 <= i < q.len() ==> #[trigger] q[i] != '"' && is_ascii_char(q[i]),
    ensures
        spec_node_declarations(bodiless_node(p) + bodiless_node(q)) == Ok::<
            Seq<(Seq<char>, Seq<char>)>,
            ParseError,
        >(seq![(p, Seq::<char>::empty()), (q, Seq::<char>::empty())]),
{
    lemma_bodiless_node_then_rest(p, bodiless_node(q));
    lemma_bodiless_node_then_rest(q, Seq::empty());
    assert(bodiless_node(q) + Seq::<char>::empty() =~= bodiless_node(q));
    assert(spec_node_declarations(Seq::<char>::empty()) == Ok::<Seq<(Seq<char>, Seq<char>)>, ParseError>(Seq::empty()));
    assert(seq![(q, Seq::<char>::empty())] + Seq::<(Seq<char>, Seq<char>)>::empty() =~= seq![(q, Seq::<char>::empty())]);
    assert(seq![(p, Seq::<char>::empty())] + seq![(q, Seq::<char>::empty())] =~= seq![(p, Seq::<char>::empty()), (q, Seq::<char>::empty())]);
}

/// The view of a list of declarations.
pub open spec fn declarations_view(v: Seq<NodeDeclaration>) -> Seq<(Seq<char>, Seq<char>)> {
    v.map_values(|d: NodeDeclaration| d@)
}

/// The content of a project file, read whole.
pub struct RfxFileFormat {
    content: String,
}

impl RfxFileFormat {
    /// The text of the file.
    pub closed spec fn text(&self) -> Seq<char> {
        self.content@
    }

    /// A reader over the text of a project file.
    pub fn new(content: String) -> (r: RfxFileFormat)
        ensures
            r.text() == content@,
    {
        RfxFileFormat { content }
    }

    /// The nodes that the file declares, in order: the plug-in of each and
    /// the name it asks for. A `param` command always ends the reading with
    /// an error.
    pub fn node_declarations(&self) -> (r: Result<Vec<NodeDeclaration>, ParseError>)
        requires
            self.text().len() < usize::MAX,
        ensures
            spec_node_declarations(self.text()) == match r {
                Ok(v) => Ok(declarations_view(v@)),
                Err(e) => Err(e),
            },
    {
        let mut lexer = Lexer::new(&self.content);
        let ghost s = self.content@;
        let ghost goal = spec_node_declarations(s);
        let mut decls: Vec<NodeDeclaration> = Vec::new();
        assert(declarations_view(decls@) =~= Seq::empty());
        loop
            invariant
                lexer.wf(),
                lexer.text() == s,
                resting(lexer.lex_state()),
                goal == spec_node_declarations(s),
                s == self.text(),
                parse_run(s, lexer.lex_state(), lexer.token_begin(), lexer.cursor(), ParseState::Top, declarations_view(decls@)) == goal,
            decreases s.len() + 2 - lexer.cursor(),
        {
            proof {
                lemma_parse_unfold(s, lexer.lex_state(), lexer.token_begin(), lexer.cursor(), ParseState::Top, declarations_view(decls@));
                lemma_lex_run_progress(s, lexer.lex_state(), lexer.token_begin(), lexer.cursor());
            }
            let ghost acc = declarations_view(decls@);
            match lexer.next_token() {
                Err(le) => {
                    return Err(ParseError::Lex(le));
                },
                Ok(Token::Command(CommandType::Node)) => {
                    match node(&mut lexer, Ghost(acc)) {
                        Ok(d) => {
                            decls.push(d);
                            assert(declarations_view(decls@) =~= acc.push(d@));
                        },
                        Err(e) => {
                            return Err(e);
                        },
                    }
                },
                Ok(Token::Command(_)) => {},
                Ok(Token::EOF) => {
                    return Ok(decls);
                },
                Ok(_) => {
                    return Err(ParseError::ExpectedCommand);
                },
            }
        }
    }
}

/// Reads a node after its `node` command.
fn node(lexer: &mut Lexer, Ghost(acc): Ghost<Seq<(Seq<char>, Seq<char>)>>) -> (r: Result<NodeDeclaration, ParseError>)
    requires
        old(lexer).wf(),
        resting(old(lexer).lex_state()),
    ensures
        r is Ok ==> final(lexer).wf(),
        r is Ok ==> final(lexer).text() == old(lexer).text(),
        r is Ok ==> resting(final(lexer).lex_state()),
        r is Ok ==> final(lexer).cursor() > old(lexer).cursor(),
        parse_run(old(lexer).text(), old(lexer).lex_state(), old(lexer).token_begin(), old(lexer).cursor(), ParseState::NodePlugin, acc)
            == match r {
                Ok(d) => parse_run(final(lexer).text(), final(lexer).lex_state(), final(lexer).token_begin(), final(lexer).cursor(), ParseState::Top, acc.push(d@)),
                Err(e) => Err(e),
            },
{
    let ghost s = lexer.text();
    proof {
        lemma_lex_run_progress(s, lexer.lex_state(), lexer.token_begin(), lexer.cursor());
        lemma_parse_unfold(s, lexer.lex_state(), lexer.token_begin(), lexer.cursor(), ParseState::NodePlugin, acc);
    }
    let plugin = match lexer.next_token() {
        Err(le) => {
            return Err(ParseError::Lex(le));
        },
        Ok(Token::StringLiteral(p)) => p,
        Ok(_) => {
            return Err(ParseError::ExpectedPluginName);
        },
    };
    proof {
        lemma_lex_run_progress(s, lexer.lex_state(), lexer.token_begin(), lexer.cursor());
        lemma_parse_unfold(s, lexer.lex_state(), lexer.token_begin(), lexer.cursor(), ParseState::NodeOpen(plugin@), acc);
    }
    let ghost e1 = lexer.cursor();
    match lexer.next_token() {
        Err(le) => Err(ParseError::Lex(le)),
        Ok(Token::OpenBrace) => {
            match node_commands(lexer, Ghost(plugin@), Ghost(acc)) {
                Ok(name) => Ok(NodeDeclaration { plugin, name }),
                Err(e) => Err(e),
            }
        },
        Ok(Token::SemiColon) => Ok(NodeDeclaration { plugin, name: String::new() }),
        Ok(_) => Err(ParseError::ExpectedNodeBody),
    }
}

/// Reads the commands inside a node's block, up to `}`, and gives the name
/// that they set.
#[verifier::rlimit(80)]
#[verifier::spinoff_prover]
fn node_commands(
    lexer: &mut Lexer,
    Ghost(plugin): Ghost<Seq<char>>,
    Ghost(acc): Ghost<Seq<(Seq<char>, Seq<char>)>>,
) -> (r: Result<String, ParseError>)
    requires
        old(lexer).wf(),
        resting(old(lexer).lex_state()),
    ensures
        r is Ok ==> final(lexer).wf(),
        r is Ok ==> final(lexer).text() == old(lexer).text(),
        r is Ok ==> resting(final(lexer).lex_state()),
        r is Ok ==> final(lexer).cursor() >= old(lexer).cursor(),
        parse_run(old(lexer).text(), old(lexer).lex_state(), old(lexer).token_begin(), old(lexer).cursor(), ParseState::Body(plugin, Seq::empty()), acc)
            == match r {
                Ok(name) => parse_run(final(lexer).text(), final(lexer).lex_state(), final(lexer).token_begin(), final(lexer).cursor(), ParseState::Top, acc.push((plugin, name@))),
                Err(e) => Err(e),
            },
        match body_run(old(lexer).text(), old(lexer).lex_state(), old(lexer).token_begin(), old(lexer).cursor(), Seq::empty()) {
            Ok((n, st2, b2, e2)) => r matches Ok(name) && name@ == n && final(lexer).lex_state() == st2
                && final(lexer).token_begin() == b2 && final(lexer).cursor() == e2,
            Err(x) => r == Err::<String, ParseError>(x),
        },
{
    let ghost s = lexer.text();
    let ghost goal = parse_run(s, lexer.lex_state(), lexer.token_begin(), lexer.cursor(), ParseState::Body(plugin, Seq::empty()), acc);
    let ghost bgoal = body_run(s, lexer.lex_state(), lexer.token_begin(), lexer.cursor(), Seq::empty());
    let ghost start = lexer.cursor();
    let mut node_name = String::new();
    loop
        invariant
            lexer.wf(),
            lexer.text() == s,
            s == old(lexer).text(),
            resting(lexer.lex_state()),
            start == old(lexer).cursor(),
            start <= lexer.cursor(),
            goal == parse_run(s, old(lexer).lex_state(), old(lexer).token_begin(), old(lexer).cursor(), ParseState::Body(plugin, Seq::empty()), acc),
            parse_run(s, lexer.lex_state(), lexer.token_begin(), lexer.cursor(), ParseState::Body(plugin, node_name@), acc) == goal,
            bgoal == body_run(s, old(lexer).lex_state(), old(lexer).token_begin(), old(lexer).cursor(), Seq::empty()),
            body_run(s, lexer.lex_state(), lexer.token_begin(), lexer.cursor(), node_name@) == bgoal,
        decreases s.len() + 2 - lexer.cursor(),
    {
        let ghost e0 = lexer.cursor();
        proof {
            lemma_lex_run_progress(s, lexer.lex_state(), lexer.token_begin(), lexer.cursor());
            lemma_parse_unfold(s, lexer.lex_state(), lexer.token_begin(), lexer.cursor(), ParseState::Body(plugin, node_name@), acc);
        }
        match lexer.next_token() {
            Err(le) => {
                return Err(ParseError::Lex(le));
            },
            Ok(Token::Command(CommandType::Name)) => {
                proof {
                    lemma_lex_run_progress(s, lexer.lex_state(), lexer.token_begin(), lexer.cursor());
                    lemma_parse_unfold(s, lexer.lex_state(), lexer.token_begin(), lexer.cursor(), ParseState::NameValue(plugin, node_name@), acc);
                }
                match lexer.next_token() {
                    Err(le) => {
                        return Err(ParseError::Lex(le));
                    },
                    Ok(Token::StringLiteral(x)) => {
                        node_name = x;
                    },
                    Ok(_) => {},
                }
                proof {
                    lemma_lex_run_progress(s, lexer.lex_state(), lexer.token_begin(), lexer.cursor());
                    lemma_parse_unfold(s, lexer.lex_state(), lexer.token_begin(), lexer.cursor(), ParseState::NameEnd(plugin, node_name@), acc);
                }
                match lexer.next_token() {
                    Err(le) => {
                        return Err(ParseError::Lex(le));
                    },
                    Ok(Token::SemiColon) => {},
                    Ok(_) => {
                        return Err(ParseError::ExpectedSemicolonAfterName);
                    },
                }
            },
            Ok(Token::Command(CommandType::Param)) => {
                proof {
                    lemma_lex_run_progress(s, lexer.lex_state(), lexer.token_begin(), lexer.cursor());
                    lemma_parse_unfold(s, lexer.lex_state(), lexer.token_begin(), lexer.cursor(), ParseState::ParamName, acc);
                }
                match lexer.next_token() {
                    Err(le) => {
                        return Err(ParseError::Lex(le));
                    },
                    Ok(Token::StringLiteral(_)) => {
                        let err = node_param(lexer, Ghost(acc));
                        return Err(err);
                    },
                    Ok(_) => {
                        return Err(ParseError::ExpectedParameterName);
                    },
                }
            },
            Ok(_) => {
                return Ok(node_name);
            },
        }
    }
}

/// Reads the values of a parameter. The values are read until an error
/// comes, which is returned: a parameter never ends the reading well.
fn node_param(lexer: &mut Lexer, Ghost(acc): Ghost<Seq<(Seq<char>, Seq<char>)>>) -> (r: ParseError)
    requires
        old(lexer).wf(),
        resting(old(lexer).lex_state()),
    ensures
        parse_run(old(lexer).text(), old(lexer).lex_state(), old(lexer).token_begin(), old(lexer).cursor(), ParseState::ParamValues(0), acc) == Err::<Seq<(Seq<char>, Seq<char>)>, ParseError>(r),
        r == param_values_error(old(lexer).text(), old(lexer).lex_state(), old(lexer).token_begin(), old(lexer).cursor(), 0),
{
    proof {
        lemma_param_values(lexer.text(), lexer.lex_state(), lexer.token_begin(), lexer.cursor(), 0, acc);
    }
    let ghost s = lexer.text();
    let ghost goal = parse_run(s, lexer.lex_state(), lexer.token_begin(), lexer.cursor(), ParseState::ParamValues(0), acc);
    let mut idx: usize = 0;
    loop
        invariant
            lexer.wf(),
            lexer.text() == s,
            s == old(lexer).text(),
            resting(lexer.lex_state()),
            idx <= 3,
            goal == parse_run(s, old(lexer).lex_state(), old(lexer).token_begin(), old(lexer).cursor(), ParseState::ParamValues(0), acc),
            parse_run(s, lexer.lex_state(), lexer.token_begin(), lexer.cursor(), ParseState::ParamValues(idx as int), acc) == goal,
            goal == Err::<Seq<(Seq<char>, Seq<char>)>, ParseError>(param_values_error(s, old(lexer).lex_state(), old(lexer).token_begin(), old(lexer).cursor(), 0)),
        decreases s.len() + 2 - lexer.cursor(),
    {
        proof {
            lemma_lex_run_progress(s, lexer.lex_state(), lexer.token_begin(), lexer.cursor());
            lemma_parse_unfold(s, lexer.lex_state(), lexer.token_begin(), lexer.cursor(), ParseState::ParamValues(idx as int), acc);
        }
        match lexer.next_token() {
            Err(le) => {
                return ParseError::Lex(le);
            },
            Ok(Token::FloatNumber(_)) => {
                return ParseError::FloatParameter;
            },
            Ok(Token::IntNumber(_)) => {
                if idx > 2 {
                    return ParseError::TooManyValues;
                }
                idx = idx + 1;
            },
            Ok(Token::SemiColon) => {},
            Ok(_) => {
                return ParseError::UnexpectedParameterToken;
            },
        }
    }
}

} // verus!
