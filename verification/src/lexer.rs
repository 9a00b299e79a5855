//! The token stream: splits query source into tokens.
//!
//! The mathematical tokenizer is [`tokens_of`]; [`Lexer`] produces the same
//! tokens one at a time, which its contract states through the view
//! `lexer@ == tokens_of(remaining text)`.

use vstd::prelude::*;

use crate::chars::{
    char_is_alnum, char_is_ws, is_alnum_char, is_ws_char, str_to_chars, string_from_chars, subvec,
};

verus! {

/// The mathematical value of a token.
pub enum GToken {
    Str(Seq<char>),
    Alnum(Seq<char>),
    Slash,
    DoubleSlash,
    Point,
    DoublePoint,
    Star,
    DoubleStar,
    EnterSquare,
    LeaveSquare,
    EnterCurly,
    LeaveCurly,
    Equal,
    Pipe,
    Unknown(Seq<char>),
}

/// One token of a query. String-carrying tokens hold the exact slice of the
/// source text they were read from (a quoted string keeps its delimiters).
#[derive(Debug, Clone, PartialEq, Eq)]
pub enum TokenType {
    String(String),
    Alphanumeric(String),
    Slash,
    DoubleSlash,
    Point,
    DoublePoint,
    Star,
    DoubleStar,
    EnterSquareBracket,
    LeaveSquareBracket,
    EnterCurlyBracket,
    LeaveCurlyBracket,
    Equal,
    Pipe,
    Unknown(String),
}

impl View for TokenType {
    type V = GToken;

    open spec fn view(&self) -> GToken {
        match self {
            TokenType::String(s) => GToken::Str(s@),
            TokenType::Alphanumeric(s) => GToken::Alnum(s@),
            TokenType::Slash => GToken::Slash,
            TokenType::DoubleSlash => GToken::DoubleSlash,
            TokenType::Point => GToken::Point,
            TokenType::DoublePoint => GToken::DoublePoint,
            TokenType::Star => GToken::Star,
            TokenType::DoubleStar => GToken::DoubleStar,
            TokenType::EnterSquareBracket => GToken::EnterSquare,
            TokenType::LeaveSquareBracket => GToken::LeaveSquare,
            TokenType::EnterCurlyBracket => GToken::EnterCurly,
            TokenType::LeaveCurlyBracket => GToken::LeaveCurly,
            TokenType::Equal => GToken::Equal,
            TokenType::Pipe => GToken::Pipe,
            TokenType::Unknown(s) => GToken::Unknown(s@),
        }
    }
}

/// Whether a character continues an alphanumeric token.
pub open spec fn is_token_char(c: char) -> bool {
    is_alnum_char(c) || c == '_' || c == '.'
}

/// The length of the whitespace prefix of `s`.
pub open spec fn take_ws(s: Seq<char>) -> int
    decreases s.len(),
{
    if s.len() > 0 && is_ws_char(s[0]) {
        1 + take_ws(s.drop_first())
    } else {
        0
    }
}

pub proof fn lemma_take_ws(s: Seq<char>)
    ensures
        0 <= take_ws(s) <= s.len(),
    decreases s.len(),
{
    if s.len() > 0 && is_ws_char(s[0]) {
        lemma_take_ws(s.drop_first());
    }
}

/// The number of characters a quoted-string token spans after its opening
/// quote `q`: scanning stops just past the first unescaped `q`, or at the
/// end of the input.
pub open spec fn text_body_len(s: Seq<char>, q: char, esc: bool) -> int
    decreases s.len(),
{
    if s.len() == 0 {
        0
    } else if esc {
        1 + text_body_len(s.drop_first(), q, false)
    } else if s[0] == '\\' {
        1 + text_body_len(s.drop_first(), q, true)
    } else if s[0] == q {
        1
    } else {
        1 + text_body_len(s.drop_first(), q, false)
    }
}

pub proof fn lemma_text_body_len(s: Seq<char>, q: char, esc: bool)
    ensures
        0 <= text_body_len(s, q, esc) <= s.len(),
    decreases s.len(),
{
    if s.len() > 0 {
        lemma_text_body_len(s.drop_first(), q, false);
        lemma_text_body_len(s.drop_first(), q, true);
    }
}

/// The length of an alphanumeric token starting at `s`: characters of the
/// token class, where two consecutive dots end the token before the dots.
/// `prev_point` records whether the previous character was a dot; on a
/// second consecutive dot the result steps back over the first one.
pub open spec fn alnum_token_len(s: Seq<char>, prev_point: bool) -> int
    decreases s.len(),
{
    if s.len() == 0 {
        0
    } else if !is_token_char(s[0]) {
        0
    } else if s[0] == '.' && prev_point {
        -1
    } else {
        1 + alnum_token_len(s.drop_first(), s[0] == '.')
    }
}

pub proof fn lemma_alnum_token_len(s: Seq<char>, prev_point: bool)
    ensures
        -1 <= alnum_token_len(s, prev_point) <= s.len(),
        !prev_point ==> 0 <= alnum_token_len(s, prev_point),
        s.len() > 0 && is_token_char(s[0]) && s[0] != '.' ==> 1 <= alnum_token_len(
            s,
            prev_point,
        ),
    decreases s.len(),
{
    if s.len() > 0 {
        lemma_alnum_token_len(s.drop_first(), true);
        lemma_alnum_token_len(s.drop_first(), false);
    }
}

/// The first token of `s` together with the number of characters it spans.
/// `s` must be nonempty and must not start with whitespace.
pub open spec fn token_at(s: Seq<char>) -> (GToken, int) {
    let c = s[0];
    if c == '"' || c == '\'' {
        let l = 1 + text_body_len(s.drop_first(), c, false);
        (GToken::Str(s.take(l)), l)
    } else if is_alnum_char(c) || c == '_' {
        let l = alnum_token_len(s, false);
        (GToken::Alnum(s.take(l)), l)
    } else if c == '/' {
        if s.len() >= 2 && s[1] == '/' {
            (GToken::DoubleSlash, 2)
        } else {
            (GToken::Slash, 1)
        }
    } else if c == '.' {
        if s.len() >= 2 && s[1] == '.' {
            (GToken::DoublePoint, 2)
        } else {
            (GToken::Point, 1)
        }
    } else if c == '*' {
        if s.len() >= 2 && s[1] == '*' {
            (GToken::DoubleStar, 2)
        } else {
            (GToken::Star, 1)
        }
    } else if c == '[' {
        (GToken::EnterSquare, 1)
    } else if c == ']' {
        (GToken::LeaveSquare, 1)
    } else if c == '{' {
        (GToken::EnterCurly, 1)
    } else if c == '}' {
        (GToken::LeaveCurly, 1)
    } else if c == '=' {
        (GToken::Equal, 1)
    } else if c == '|' {
        (GToken::Pipe, 1)
    } else {
        (GToken::Unknown(s.take(1)), 1)
    }
}

pub proof fn lemma_token_at_len(s: Seq<char>)
    requires
        s.len() > 0,
        !is_ws_char(s[0]),
    ensures
        1 <= token_at(s).1 <= s.len(),
{
    let c = s[0];
    if c == '"' || c == '\'' {
        lemma_text_body_len(s.drop_first(), c, false);
    } else if is_alnum_char(c) || c == '_' {
        assert(c != '.');
        lemma_alnum_token_len(s, false);
    }
}

/// The full tokenization of a query text.
pub open spec fn tokens_of(s: Seq<char>) -> Seq<GToken>
    decreases s.len(),
    via tokens_of_dec
{
    let rest = s.skip(take_ws(s));
    if rest.len() == 0 {
        Seq::empty()
    } else {
        seq![token_at(rest).0] + tokens_of(rest.skip(token_at(rest).1))
    }
}

#[via_fn]
proof fn tokens_of_dec(s: Seq<char>) {
    lemma_take_ws(s);
    let rest = s.skip(take_ws(s));
    if rest.len() > 0 {
        if is_ws_char(rest[0]) {
            // impossible: the whitespace prefix is maximal
            assert(take_ws(s) < s.len());
            lemma_take_ws_maximal(s);
        }
        lemma_token_at_len(rest);
    }
}

/// After the whitespace prefix, the next character (if any) is not
/// whitespace.
pub proof fn lemma_take_ws_maximal(s: Seq<char>)
    ensures
        take_ws(s) < s.len() ==> !is_ws_char(s[take_ws(s)]),
    decreases s.len(),
{
    if s.len() > 0 && is_ws_char(s[0]) {
        lemma_take_ws_maximal(s.drop_first());
        lemma_take_ws(s.drop_first());
    }
}

/// Dropping one leading whitespace character does not change the tokens.
pub proof fn lemma_tokens_of_ws_step(s: Seq<char>)
    requires
        s.len() > 0,
        is_ws_char(s[0]),
    ensures
        tokens_of(s) == tokens_of(s.drop_first()),
{
    let d = s.drop_first();
    lemma_take_ws(d);
    assert(take_ws(s) == 1 + take_ws(d));
    assert(s.skip(take_ws(s)) =~= d.skip(take_ws(d)));
}

/// The token stream over a query text.
pub struct Lexer {
    input: Vec<char>,
    pos: usize,
}

impl Lexer {
    /// The lexer state is valid: the cursor is inside the text.
    pub closed spec fn wf(&self) -> bool {
        self.pos <= self.input.len()
    }

    /// The text still to be tokenized.
    pub closed spec fn remaining(&self) -> Seq<char> {
        self.input@.skip(self.pos as int)
    }
}

impl View for Lexer {
    type V = Seq<GToken>;

    closed spec fn view(&self) -> Seq<GToken> {
        tokens_of(self.remaining())
    }
}

impl Lexer {
    /// A lexer over the given source text.
    pub fn from(input: &str) -> (r: Lexer)
        ensures
            r.wf(),
            r@ == tokens_of(input@),
    {
        let l = Lexer { input: str_to_chars(input), pos: 0 };
        proof {
            assert(l.remaining() =~= input@);
        }
        l
    }

    /// The next token, advancing past it; `None` once the text is exhausted.
    pub fn next(&mut self) -> (r: Option<TokenType>)
        requires
            old(self).wf(),
        ensures
            final(self).wf(),
            old(self)@.len() == 0 ==> r is None && final(self)@ == old(self)@,
            old(self)@.len() > 0 ==> r is Some && r->0@ == old(self)@[0] && final(self)@ == old(
                self,
            )@.drop_first(),
    {
        let ghost orig = self.remaining();
        // Skip leading whitespace.
        loop
            invariant
                self.wf(),
                self.input == old(self).input,
                old(self).pos <= self.pos,
                tokens_of(self.remaining()) == tokens_of(orig),
            ensures
                self.wf(),
                self.input == old(self).input,
                tokens_of(self.remaining()) == tokens_of(orig),
                self.pos == self.input.len() || !is_ws_char(self.input@[self.pos as int]),
            decreases self.input.len() - self.pos,
        {
            if self.pos >= self.input.len() {
                break ;
            }
            let c = self.input[self.pos];
            if !char_is_ws(c) {
                break ;
            }
            proof {
                lemma_tokens_of_ws_step(self.remaining());
                assert(self.remaining().drop_first() =~= self.input@.skip(self.pos + 1));
            }
            self.pos = self.pos + 1;
        }
        let ghost rem = self.remaining();
        proof {
            assert(rem.len() == 0 || !is_ws_char(rem[0]));
            assert(rem.skip(take_ws(rem)) =~= rem);
        }
        if self.pos >= self.input.len() {
            proof {
                assert(tokens_of(rem).len() == 0);
            }
            return None;
        }
        proof {
            assert(tokens_of(rem) == seq![token_at(rem).0] + tokens_of(
                rem.skip(token_at(rem).1),
            ));
            assert(tokens_of(rem)[0] == token_at(rem).0);
        }
        let c = self.input[self.pos];
        let r = if c == '"' || c == '\'' {
            self.get_text()
        } else if char_is_alnum(c) || c == '_' {
            self.get_alphanumeric()
        } else {
            self.get_token()
        };
        proof {
            let l = token_at(rem).1;
            lemma_token_at_len(rem);
            assert(self.remaining() =~= rem.skip(l));
            assert(tokens_of(rem).drop_first() =~= tokens_of(rem.skip(l)));
        }
        r
    }

    /// Reads a quoted-string token: everything up to and including the first
    /// unescaped closing quote, or to the end of the input.
    fn get_text(&mut self) -> (r: Option<TokenType>)
        requires
            old(self).wf(),
            old(self).pos < old(self).input.len(),
            old(self).remaining()[0] == '"' || old(self).remaining()[0] == '\'',
        ensures
            final(self).wf(),
            final(self).input == old(self).input,
            r is Some && r->0@ == token_at(old(self).remaining()).0,
            final(self).pos == old(self).pos + token_at(old(self).remaining()).1,
    {
        let ghost rem = old(self).remaining();
        let ghost body = rem.drop_first();
        let q = self.input[self.pos];
        let mut j: usize = 0;
        let mut esc = false;
        proof {
            assert(body =~= self.input@.skip(self.pos + 1));
            assert(body.skip(0) =~= body);
        }
        loop
            invariant_except_break
                text_body_len(body, q, false) == j + text_body_len(body.skip(j as int), q, esc),
            invariant
                self.pos == old(self).pos,
                self.input == old(self).input,
                self.pos + 1 + body.len() == self.input.len(),
                j <= body.len(),
                q == rem[0],
                body == old(self).remaining().drop_first(),
            ensures
                self.pos == old(self).pos,
                self.input == old(self).input,
                j <= body.len(),
                text_body_len(body, q, false) == j,
            decreases body.len() - j,
        {
            if self.pos + 1 + j >= self.input.len() {
                proof {
                    assert(body.skip(j as int).len() == 0);
                }
                break ;
            }
            let c = self.input[self.pos + 1 + j];
            proof {
                assert(body.skip(j as int)[0] == c);
                assert(body.skip(j as int).drop_first() =~= body.skip(j + 1));
            }
            if esc {
                esc = false;
                j = j + 1;
            } else if c == '\\' {
                esc = true;
                j = j + 1;
            } else if c == q {
                j = j + 1;
                proof {
                    assert(text_body_len(body, q, false) == j);
                }
                break ;
            } else {
                j = j + 1;
            }
        }
        let text = self.advance_and_return(1 + j);
        match text {
            Some(s) => Some(TokenType::String(s)),
            None => None,
        }
    }

    /// Reads an alphanumeric token; two consecutive dots end the token
    /// before the dots.
    fn get_alphanumeric(&mut self) -> (r: Option<TokenType>)
        requires
            old(self).wf(),
            old(self).pos < old(self).input.len(),
            is_alnum_char(old(self).remaining()[0]) || old(self).remaining()[0] == '_',
            !(old(self).remaining()[0] == '"' || old(self).remaining()[0] == '\''),
        ensures
            final(self).wf(),
            final(self).input == old(self).input,
            r is Some && r->0@ == token_at(old(self).remaining()).0,
            final(self).pos == old(self).pos + token_at(old(self).remaining()).1,
    {
        let ghost rem = old(self).remaining();
        let mut j: usize = 0;
        let mut prev_point = false;
        let mut l: usize = 0;
        proof {
            assert(rem.skip(0) =~= rem);
        }
        loop
            invariant
                self.pos == old(self).pos,
                self.input == old(self).input,
                self.pos + rem.len() == self.input.len(),
                j <= rem.len(),
                rem == old(self).remaining(),
                is_alnum_char(rem[0]) || rem[0] == '_',
                prev_point ==> 1 <= j,
                alnum_token_len(rem, false) == j + alnum_token_len(rem.skip(j as int), prev_point),
            ensures
                self.pos == old(self).pos,
                self.input == old(self).input,
                l <= rem.len(),
                alnum_token_len(rem, false) == l,
            decreases rem.len() - j,
        {
            if self.pos + j >= self.input.len() {
                l = j;
                proof {
                    assert(rem.skip(j as int).len() == 0);
                }
                break ;
            }
            let c = self.input[self.pos + j];
            proof {
                assert(rem.skip(j as int)[0] == c);
                assert(rem.skip(j as int).drop_first() =~= rem.skip(j + 1));
            }
            if !(char_is_alnum(c) || c == '_' || c == '.') {
                l = j;
                break ;
            }
            if c == '.' && prev_point {
                l = j - 1;
                break ;
            }
            prev_point = c == '.';
            j = j + 1;
        }
        let text = self.advance_and_return(l);
        match text {
            Some(s) => Some(TokenType::Alphanumeric(s)),
            None => None,
        }
    }

    /// Reads a punctuation token, doubling `/`, `.` and `*` where the next
    /// character repeats them; any unrecognized character becomes `Unknown`.
    fn get_token(&mut self) -> (r: Option<TokenType>)
        requires
            old(self).wf(),
            old(self).pos < old(self).input.len(),
            !(old(self).remaining()[0] == '"' || old(self).remaining()[0] == '\''),
            !(is_alnum_char(old(self).remaining()[0]) || old(self).remaining()[0] == '_'),
        ensures
            final(self).wf(),
            final(self).input == old(self).input,
            r is Some && r->0@ == token_at(old(self).remaining()).0,
            final(self).pos == old(self).pos + token_at(old(self).remaining()).1,
    {
        let ghost rem = old(self).remaining();
        let c = self.input[self.pos];
        let two = self.pos + 1 < self.input.len();
        if c == '/' {
            if two && self.input[self.pos + 1] == '/' {
                self.pos = self.pos + 2;
                Some(TokenType::DoubleSlash)
            } else {
                self.pos = self.pos + 1;
                Some(TokenType::Slash)
            }
        } else if c == '.' {
            if two && self.input[self.pos + 1] == '.' {
                self.pos = self.pos + 2;
                Some(TokenType::DoublePoint)
            } else {
                self.pos = self.pos + 1;
                Some(TokenType::Point)
            }
        } else if c == '*' {
            if two && self.input[self.pos + 1] == '*' {
                self.pos = self.pos + 2;
                Some(TokenType::DoubleStar)
            } else {
                self.pos = self.pos + 1;
                Some(TokenType::Star)
            }
        } else if c == '[' {
            self.pos = self.pos + 1;
            Some(TokenType::EnterSquareBracket)
        } else if c == ']' {
            self.pos = self.pos + 1;
            Some(TokenType::LeaveSquareBracket)
        } else if c == '{' {
            self.pos = self.pos + 1;
            Some(TokenType::EnterCurlyBracket)
        } else if c == '}' {
            self.pos = self.pos + 1;
            Some(TokenType::LeaveCurlyBracket)
        } else if c == '=' {
            self.pos = self.pos + 1;
            Some(TokenType::Equal)
        } else if c == '|' {
            self.pos = self.pos + 1;
            Some(TokenType::Pipe)
        } else {
            let text = subvec(&self.input, self.pos, self.pos + 1);
            self.pos = self.pos + 1;
            proof {
                assert(text@ =~= rem.take(1));
            }
            Some(TokenType::Unknown(string_from_chars(&text)))
        }
    }

    /// Hands out the next `offset` characters as a string and advances
    /// past them.
    fn advance_and_return(&mut self, offset: usize) -> (r: Option<String>)
        requires
            old(self).wf(),
            old(self).pos + offset <= old(self).input.len(),
        ensures
            final(self).wf(),
            final(self).input == old(self).input,
            final(self).pos == old(self).pos + offset,
            r is Some && r->0@ == old(self).remaining().take(offset as int),
    {
        let text = subvec(&self.input, self.pos, self.pos + offset);
        self.pos = self.pos + offset;
        proof {
            assert(text@ =~= old(self).remaining().take(offset as int));
        }
        Some(string_from_chars(&text))
    }
}

} // verus!
