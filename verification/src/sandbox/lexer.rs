//! A first lexer of project files.
//!
//! Its positions count characters, so it reads ASCII text. It knows the
//! commands `plugin`, `path`, `node` and `param`, braces, `;`, quoted
//! strings, numbers (integers, then floating-point numbers, kept as their
//! text), and comments from `#` to the end of the line. A token it cannot
//! read, an unfinished string and the end of the text all give `EOF`.
use vstd::prelude::*;
use crate::numbers::{spec_parse_i32, parse_i32_range, is_float_literal, is_float_literal_range, is_digit};
use crate::text::{chars_of, substring};

verus! {

/// A token.
#[derive(Debug, PartialEq)]
pub enum Token {
    OpenBrace,
    CloseBrace,
    PluginCommand,
    NodeCommand,
    ConnectNodeCommand,
    PathCommand,
    ParamCommand,
    PropertyCommand,
    SemiColon,
    StringLiteral(String),
    FloatNumber(String),
    IntNumber(i32),
    EOF,
}

/// What a token is, its text as characters.
pub enum TokenView {
    OpenBrace,
    CloseBrace,
    PluginCommand,
    NodeCommand,
    ConnectNodeCommand,
    PathCommand,
    ParamCommand,
    PropertyCommand,
    SemiColon,
    StringLiteral(Seq<char>),
    FloatNumber(Seq<char>),
    IntNumber(i32),
    Eof,
}

impl View for Token {
    type V = TokenView;

    open spec fn view(&self) -> TokenView {
        match self {
            Token::OpenBrace => TokenView::OpenBrace,
            Token::CloseBrace => TokenView::CloseBrace,
            Token::PluginCommand => TokenView::PluginCommand,
            Token::NodeCommand => TokenView::NodeCommand,
            Token::ConnectNodeCommand => TokenView::ConnectNodeCommand,
            Token::PathCommand => TokenView::PathCommand,
            Token::ParamCommand => TokenView::ParamCommand,
            Token::PropertyCommand => TokenView::PropertyCommand,
            Token::SemiColon => TokenView::SemiColon,
            Token::StringLiteral(s) => TokenView::StringLiteral(s@),
            Token::FloatNumber(s) => TokenView::FloatNumber(s@),
            Token::IntNumber(n) => TokenView::IntNumber(*n),
            Token::EOF => TokenView::Eof,
        }
    }
}

/// A white-space character, as Unicode's `White_Space` property has it.
pub open spec fn is_white_space(c: char) -> bool {
    ||| c == '\t' || c == '\n' || c == '\u{0B}' || c == '\u{0C}' || c == '\r' || c == ' '
    ||| c == '\u{85}' || c == '\u{A0}' || c == '\u{1680}'
    ||| '\u{2000}' <= c && c <= '\u{200A}'
    ||| c == '\u{2028}' || c == '\u{2029}' || c == '\u{202F}' || c == '\u{205F}' || c == '\u{3000}'
}

/// A character that a number may hold.
pub open spec fn is_number_char(c: char) -> bool {
    is_digit(c) || c == '.' || c == 'e' || c == '+' || c == '-'
}

/// An ASCII text.
pub open spec fn is_ascii_text(s: Seq<char>) -> bool {
    forall|i: int| 0 <= i < s.len() ==> (#[trigger] s[i] as u32) < 128
}

/// The first position from `p` that does not hold white space.
pub open spec fn skip_ws(s: Seq<char>, p: int) -> int
    decreases s.len() - p,
{
    if 0 <= p < s.len() && is_white_space(s[p]) {
        skip_ws(s, p + 1)
    } else {
        p
    }
}

/// The positions after skipping white space from `b`; the end position
/// moves only when some white space was skipped.
pub open spec fn skip(s: Seq<char>, b: int, e: int) -> (int, int) {
    if b >= s.len() {
        (b, e)
    } else if skip_ws(s, b) == b {
        (b, e)
    } else {
        (skip_ws(s, b), skip_ws(s, b))
    }
}

/// The position after the comment that starts at `p`: past the end of its
/// line, or the end of the text.
pub open spec fn comment_end(s: Seq<char>, p: int) -> int
    decreases s.len() - p,
{
    if p >= s.len() {
        s.len() as int
    } else if s[p] == '\n' {
        p + 1
    } else {
        comment_end(s, p + 1)
    }
}

/// The position of the first `"` from `p`.
pub open spec fn string_close(s: Seq<char>, p: int) -> Option<int>
    decreases s.len() - p,
{
    if p < 0 || p >= s.len() {
        None
    } else if s[p] == '"' {
        Some(p)
    } else {
        string_close(s, p + 1)
    }
}

/// The first position from `p` that does not hold a number character.
pub open spec fn number_end(s: Seq<char>, p: int) -> int
    decreases s.len() - p,
{
    if 0 <= p < s.len() && is_number_char(s[p]) {
        number_end(s, p + 1)
    } else {
        p
    }
}

/// Whether `w` is written at `p` in `s`.
pub open spec fn has_prefix(s: Seq<char>, p: int, w: Seq<char>) -> bool {
    0 <= p && p + w.len() <= s.len() && s.subrange(p, p + w.len()) == w
}

/// The token read from the number characters `captured`: an integer if
/// it reads as one, else a floating-point number, else `EOF`.
pub open spec fn number_token(captured: Seq<char>) -> TokenView {
    match spec_parse_i32(captured) {
        Some(n) => TokenView::IntNumber(n),
        None => if is_float_literal(captured) {
            TokenView::FloatNumber(captured)
        } else {
            TokenView::Eof
        },
    }
}

/// What a call of `next_token` gives over `s` from the token start `b`
/// and the end `e`: the token and the positions after it; `None` where the
/// characters of a number would be taken past the end of the text.
pub open spec fn spec_next_token(s: Seq<char>, b: int, e: int) -> Option<(TokenView, int, int)>
    decreases s.len() - b,
{
    let (b1, e1) = skip(s, b, e);
    if b1 >= s.len() || b1 < 0 {
        Some((TokenView::Eof, b1, e1))
    } else {
        let c = s[b1];
        if c == '#' {
            let e2 = e1 + (comment_end(s, b1) - b1);
            if e2 >= s.len() || e2 <= b {
                Some((TokenView::Eof, e2, e2))
            } else {
                spec_next_token(s, e2, e2)
            }
        } else if c == ';' {
            Some((TokenView::SemiColon, b1 + 1, b1 + 1))
        } else if c == '{' {
            Some((TokenView::OpenBrace, b1 + 1, b1 + 1))
        } else if c == '}' {
            Some((TokenView::CloseBrace, b1 + 1, b1 + 1))
        } else if has_prefix(s, b1, seq!['p', 'l', 'u', 'g', 'i', 'n']) {
            Some((TokenView::PluginCommand, b1 + 6, b1 + 6))
        } else if has_prefix(s, b1, seq!['p', 'a', 't', 'h']) {
            Some((TokenView::PathCommand, b1 + 4, b1 + 4))
        } else if has_prefix(s, b1, seq!['n', 'o', 'd', 'e']) {
            Some((TokenView::NodeCommand, b1 + 4, b1 + 4))
        } else if has_prefix(s, b1, seq!['p', 'a', 'r', 'a', 'm']) {
            Some((TokenView::ParamCommand, b1 + 5, b1 + 5))
        } else if c == '"' {
            let b2 = b1 + 1;
            if b2 >= s.len() {
                Some((TokenView::Eof, b2, b2))
            } else {
                match string_close(s, b2) {
                    None => Some((TokenView::Eof, b2, s.len() as int)),
                    Some(j) => Some((TokenView::StringLiteral(s.subrange(b2, j)), j + 1, j + 1)),
                }
            }
        } else {
            let e2 = e1 + (number_end(s, b1) - b1);
            if e2 > s.len() {
                None
            } else {
                Some((number_token(s.subrange(b1, e2)), e2, e2))
            }
        }
    }
}

/// Once the start of the token is past the text, every call gives `EOF`
/// and leaves the positions as they are.
pub proof fn lemma_eof_stays(s: Seq<char>, b: int, e: int)
    requires
        b >= s.len(),
    ensures
        spec_next_token(s, b, e) == Some((TokenView::Eof, b, e)),
{
}

/// A first lexer of project files.
pub struct Lexer<'a> {
    input: &'a str,
    chars: Vec<char>,
    begin: usize,
    end: usize,
}

impl<'a> Lexer<'a> {
    /// The text being read.
    pub closed spec fn text(&self) -> Seq<char> {
        self.chars@
    }

    /// Where the current token starts.
    pub closed spec fn token_begin(&self) -> int {
        self.begin as int
    }

    /// Where the current token ends.
    pub closed spec fn token_end(&self) -> int {
        self.end as int
    }

    /// The text is ASCII and fits a string; the positions are ordered, and
    /// the end stays within the text while the start does.
    pub closed spec fn wf(&self) -> bool {
        &&& self.chars@ == self.input@
        &&& is_ascii_text(self.chars@)
        &&& self.chars@.len() <= isize::MAX
        &&& self.begin <= self.end <= 2 * self.chars@.len()
        &&& self.begin < self.chars@.len() ==> self.end <= self.chars@.len()
    }

    /// What the next call of `next_token` gives.
    pub open spec fn spec_next(&self) -> Option<(TokenView, int, int)> {
        spec_next_token(self.text(), self.token_begin(), self.token_end())
    }

    /// A lexer at the start of `input`.
    pub fn new(input: &'a String) -> (lexer: Self)
        requires
            is_ascii_text(input@),
            input@.len() <= isize::MAX,
        ensures
            lexer.wf(),
            lexer.text() == input@,
            lexer.token_begin() == 0,
            lexer.token_end() == 0,
    {
        let s = input.as_str();
        let chars = chars_of(s);
        Lexer { input: s, chars, begin: 0, end: 0 }
    }

    fn is_white_space_at(&self, p: usize) -> (r: bool)
        requires
            p < self.chars@.len(),
        ensures
            r == is_white_space(self.chars@[p as int]),
    {
        let c = self.chars[p];
        c == '\t' || c == '\n' || c == '\u{0B}' || c == '\u{0C}' || c == '\r' || c == ' ' || c
            == '\u{85}' || c == '\u{A0}' || c == '\u{1680}' || ('\u{2000}' <= c && c <= '\u{200A}')
            || c == '\u{2028}' || c == '\u{2029}' || c == '\u{202F}' || c == '\u{205F}' || c
            == '\u{3000}'
    }

    /// Moves the start of the token past white space; the end follows it
    /// when white space was skipped.
    pub fn skip_whitespaces(&mut self)
        requires
            old(self).wf(),
        ensures
            final(self).wf(),
            final(self).text() == old(self).text(),
            (final(self).token_begin(), final(self).token_end()) == skip(
                old(self).text(),
                old(self).token_begin(),
                old(self).token_end(),
            ),
            final(self).token_begin() >= old(self).token_begin(),
    {
        if self.begin >= self.chars.len() {
            return ;
        }
        let ghost s = self.chars@;
        let ghost b0 = self.begin as int;
        let ghost e0 = self.end as int;
        while self.begin < self.chars.len() && self.is_white_space_at(self.begin)
            invariant
                self.wf(),
                s == self.chars@,
                b0 <= self.begin <= s.len(),
                skip_ws(s, self.begin as int) == skip_ws(s, b0),
                self.begin == b0 ==> self.end == e0,
                self.begin > b0 ==> self.end == self.begin,
            decreases s.len() - self.begin,
        {
            self.begin = self.begin + 1;
            self.end = self.begin;
        }
    }

    fn comment_end_at(&self, p: usize) -> (r: usize)
        requires
            p <= self.chars@.len(),
        ensures
            r == comment_end(self.chars@, p as int),
            p <= r <= self.chars@.len(),
            p < self.chars@.len() ==> p < r,
    {
        let mut i = p;
        while i < self.chars.len()
            invariant
                p <= i <= self.chars@.len(),
                comment_end(self.chars@, i as int) == comment_end(self.chars@, p as int),
            decreases self.chars@.len() - i,
        {
            if self.chars[i] == '\n' {
                return i + 1;
            }
            i = i + 1;
        }
        i
    }

    fn string_close_at(&self, p: usize) -> (r: Option<usize>)
        requires
            p <= self.chars@.len(),
        ensures
            match r {
                Some(j) => string_close(self.chars@, p as int) == Some(j as int) && p <= j
                    < self.chars@.len(),
                None => string_close(self.chars@, p as int) is None,
            },
    {
        let mut i = p;
        while i < self.chars.len()
            invariant
                p <= i <= self.chars@.len(),
                string_close(self.chars@, i as int) == string_close(self.chars@, p as int),
            decreases self.chars@.len() - i,
        {
            if self.chars[i] == '"' {
                return Some(i);
            }
            i = i + 1;
        }
        None
    }

    fn number_end_at(&self, p: usize) -> (r: usize)
        requires
            p <= self.chars@.len(),
        ensures
            r == number_end(self.chars@, p as int),
            p <= r <= self.chars@.len(),
    {
        let mut i = p;
        while i < self.chars.len()
            invariant
                p <= i <= self.chars@.len(),
                number_end(self.chars@, i as int) == number_end(self.chars@, p as int),
            decreases self.chars@.len() - i,
        {
            let c = self.chars[i];
            if !(('0' <= c && c <= '9') || c == '.' || c == 'e' || c == '+' || c == '-') {
                return i;
            }
            i = i + 1;
        }
        i
    }

    fn prefix_at(&self, p: usize, w: &Vec<char>) -> (r: bool)
        requires
            p <= self.chars@.len(),
        ensures
            r == has_prefix(self.chars@, p as int, w@),
    {
        if w.len() > self.chars.len() - p {
            return false;
        }
        let n = self.chars.len();
        let mut i: usize = 0;
        while i < w.len()
            invariant
                n == self.chars@.len(),
                p + w@.len() <= self.chars@.len(),
                i <= w@.len(),
                forall|j: int| 0 <= j < i ==> self.chars@[p + j] == w@[j],
            decreases w@.len() - i,
        {
            if self.chars[p + i] != w[i] {
                assert(self.chars@.subrange(p as int, p + w@.len())[i as int] != w@[i as int]);
                return false;
            }
            i = i + 1;
        }
        assert(self.chars@.subrange(p as int, p + w@.len()) =~= w@);
        true
    }

    fn skip_from(&self, b: usize, e: usize) -> (r: (usize, usize))
        requires
            self.wf(),
            b <= e <= 2 * self.chars@.len(),
            b < self.chars@.len() ==> e <= self.chars@.len(),
        ensures
            (r.0 as int, r.1 as int) == skip(self.chars@, b as int, e as int),
            b <= r.0 <= r.1 <= 2 * self.chars@.len(),
            r.0 < self.chars@.len() ==> r.1 <= self.chars@.len(),
    {
        if b >= self.chars.len() {
            return (b, e);
        }
        let ghost s = self.chars@;
        let mut q = b;
        while q < self.chars.len() && self.is_white_space_at(q)
            invariant
                s == self.chars@,
                b <= q <= s.len(),
                skip_ws(s, q as int) == skip_ws(s, b as int),
            decreases s.len() - q,
        {
            q = q + 1;
        }
        if q == b {
            (b, e)
        } else {
            (q, q)
        }
    }

    /// Whether the next call of `next_token` can read a token: it cannot
    /// only where the characters of a number would be taken past the end
    /// of the text.
    pub fn can_read_next(&self) -> (r: bool)
        requires
            self.wf(),
        ensures
            r == (self.spec_next() is Some),
    {
        let ghost s = self.chars@;
        let len = self.chars.len();
        let mut b = self.begin;
        let mut e = self.end;
        loop
            invariant
                self.wf(),
                s == self.chars@,
                len == s.len(),
                b <= e <= 2 * s.len(),
                b < s.len() ==> e <= s.len(),
                spec_next_token(s, b as int, e as int) == self.spec_next(),
            decreases 2 * s.len() - b,
        {
            let ghost b0 = b as int;
            let (b1, e1) = self.skip_from(b, e);
            if b1 >= len {
                return true;
            }
            if self.chars[b1] == '#' {
                let ce = self.comment_end_at(b1);
                let e2 = e1 + (ce - b1);
                assert(e2 > b0);
                if e2 >= len {
                    return true;
                }
                b = e2;
                e = e2;
            } else {
                let ne = self.number_end_at(b1);
                return e1 + (ne - b1) <= len;
            }
        }
    }

    /// Reads the next token.
    #[verifier::rlimit(50)]
    pub fn next_token(&mut self) -> (t: Token)
        requires
            old(self).wf(),
            old(self).spec_next() is Some,
        ensures
            final(self).wf(),
            final(self).text() == old(self).text(),
            old(self).spec_next() == Some((t@, final(self).token_begin(), final(self).token_end())),
    {
        let ghost s = self.chars@;
        let ghost target = old(self).spec_next();
        let plugin: Vec<char> = vec!['p', 'l', 'u', 'g', 'i', 'n'];
        let path: Vec<char> = vec!['p', 'a', 't', 'h'];
        let node: Vec<char> = vec!['n', 'o', 'd', 'e'];
        let param: Vec<char> = vec!['p', 'a', 'r', 'a', 'm'];
        assert(plugin@ =~= seq!['p', 'l', 'u', 'g', 'i', 'n']);
        assert(path@ =~= seq!['p', 'a', 't', 'h']);
        assert(node@ =~= seq!['n', 'o', 'd', 'e']);
        assert(param@ =~= seq!['p', 'a', 'r', 'a', 'm']);
        loop
            invariant
                self.wf(),
                s == self.chars@,
                s == old(self).chars@,
                target is Some,
                target == old(self).spec_next(),
                spec_next_token(s, self.begin as int, self.end as int) == target,
                plugin@ == seq!['p', 'l', 'u', 'g', 'i', 'n'],
                path@ == seq!['p', 'a', 't', 'h'],
                node@ == seq!['n', 'o', 'd', 'e'],
                param@ == seq!['p', 'a', 'r', 'a', 'm'],
            decreases 2 * s.len() - self.begin,
        {
            let ghost b0 = self.begin as int;
            let ghost e0 = self.end as int;
            self.skip_whitespaces();
            let len = self.chars.len();
            if self.begin >= len {
                return Token::EOF;
            }
            let b = self.begin;
            let c = self.chars[b];
            if c == '#' {
                let ce = self.comment_end_at(b);
                let e2 = self.end + (ce - b);
                assert(e2 > b0);
                assert(spec_next_token(s, b0, e0) == if e2 >= len {
                    Some((TokenView::Eof, e2 as int, e2 as int))
                } else {
                    spec_next_token(s, e2 as int, e2 as int)
                });
                self.end = e2;
                self.begin = e2;
                if self.begin >= len {
                    return Token::EOF;
                }
            } else if c == ';' {
                self.begin = b + 1;
                self.end = b + 1;
                return Token::SemiColon;
            } else if c == '{' {
                self.begin = b + 1;
                self.end = b + 1;
                return Token::OpenBrace;
            } else if c == '}' {
                self.begin = b + 1;
                self.end = b + 1;
                return Token::CloseBrace;
            } else if self.prefix_at(b, &plugin) {
                self.begin = b + 6;
                self.end = b + 6;
                return Token::PluginCommand;
            } else if self.prefix_at(b, &path) {
                self.begin = b + 4;
                self.end = b + 4;
                return Token::PathCommand;
            } else if self.prefix_at(b, &node) {
                self.begin = b + 4;
                self.end = b + 4;
                return Token::NodeCommand;
            } else if self.prefix_at(b, &param) {
                self.begin = b + 5;
                self.end = b + 5;
                return Token::ParamCommand;
            } else if c == '"' {
                let b2 = b + 1;
                self.begin = b2;
                self.end = b2;
                if b2 >= len {
                    return Token::EOF;
                }
                match self.string_close_at(b2) {
                    None => {
                        self.end = len;
                        return Token::EOF;
                    },
                    Some(j) => {
                        let captured = substring(self.input, b2, j);
                        self.begin = j + 1;
                        self.end = j + 1;
                        return Token::StringLiteral(captured);
                    },
                }
            } else {
                let ne = self.number_end_at(b);
                let e2 = self.end + (ne - b);
                self.begin = e2;
                self.end = e2;
                if let Some(n) = parse_i32_range(&self.chars, b, e2) {
                    return Token::IntNumber(n);
                }
                if is_float_literal_range(&self.chars, b, e2) {
                    return Token::FloatNumber(substring(self.input, b, e2));
                }
                return Token::EOF;
            }
        }
    }
}

} // verus!
