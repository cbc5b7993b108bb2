use vstd::prelude::*;
use vstd::string::*;
use vstd::utf8::*;

verus! {

/// A token of the scene description text. Words and numbers borrow from the text.
#[derive(Debug, Clone, Copy, PartialEq, Eq)]
pub enum Lexeme<'t> {
    Str(&'t str),
    Qoutes,
    OpenBracket,
    CloseBracket,
    /// The caller decides whether it reads an integer or a real number.
    Num(&'t str),
    Eof,
}

/// What a lexeme stands for: words and numbers as their UTF-8 bytes.
pub enum Token {
    Str(Seq<u8>),
    Qoutes,
    OpenBracket,
    CloseBracket,
    Num(Seq<u8>),
    Eof,
}

/// The lexer met a byte that starts no token.
#[derive(Debug, Clone, Copy, PartialEq, Eq)]
pub enum LexError {
    InvalidCharacter(u8),
}

/// The sets of bytes that a run of bytes is scanned over.
#[derive(Debug, Clone, Copy, PartialEq, Eq)]
pub enum ByteClass {
    /// Any byte but a quote or a whitespace byte.
    Word,
    /// Digits, sign, decimal point and exponent mark.
    Number,
    /// Any byte but a line feed.
    Line,
    /// Whitespace.
    Space,
}

/// ASCII whitespace: tab, line feed, form feed, carriage return, space.
pub open spec fn is_space(b: u8) -> bool {
    b == 9 || b == 10 || b == 12 || b == 13 || b == 32
}

/// A byte that ends a word: a quote, ASCII whitespace or a vertical tab.
pub open spec fn ends_word(b: u8) -> bool {
    b == 34 || is_space(b) || b == 11
}

pub open spec fn is_digit(b: u8) -> bool {
    48 <= b <= 57
}

pub open spec fn is_letter(b: u8) -> bool {
    (65 <= b <= 90) || (97 <= b <= 122)
}

/// A word starts with an ASCII letter or with a character outside ASCII.
pub open spec fn starts_word(b: u8) -> bool {
    is_letter(b) || b >= 128
}

/// A number starts with a sign, a decimal point or a digit.
pub open spec fn starts_num(b: u8) -> bool {
    b == 45 || b == 46 || is_digit(b)
}

pub open spec fn in_class(c: ByteClass, b: u8) -> bool {
    match c {
        ByteClass::Word => !ends_word(b),
        ByteClass::Number => b == 45 || b == 46 || b == 101 || is_digit(b),
        ByteClass::Line => b != 10,
        ByteClass::Space => is_space(b),
    }
}

/// The end of the longest run of bytes of class `c` that starts at `i`.
pub open spec fn run_end(b: Seq<u8>, i: int, c: ByteClass) -> int
    decreases b.len() - i,
{
    if 0 <= i < b.len() && in_class(c, b[i]) {
        run_end(b, i + 1, c)
    } else {
        i
    }
}

/// Where the next token starts, reading from `i` over whitespace and comments.
/// A comment runs from `#` up to and including the next line feed, or to the end.
pub open spec fn skip_end(b: Seq<u8>, i: int, in_comment: bool) -> int
    decreases b.len() - i,
{
    if i < 0 || i >= b.len() {
        i
    } else if in_comment {
        skip_end(b, i + 1, b[i] != 10)
    } else if is_space(b[i]) {
        skip_end(b, i + 1, false)
    } else if b[i] == 35 {
        skip_end(b, i + 1, true)
    } else {
        i
    }
}

/// The token read from position `pos` of `b`, and the position after it.
pub open spec fn lex_step(b: Seq<u8>, pos: int) -> (Result<Token, LexError>, int) {
    let p = skip_end(b, pos, false);
    if p >= b.len() {
        (Ok(Token::Eof), p)
    } else if b[p] == 34 {
        (Ok(Token::Qoutes), p + 1)
    } else if b[p] == 91 {
        (Ok(Token::OpenBracket), p + 1)
    } else if b[p] == 93 {
        (Ok(Token::CloseBracket), p + 1)
    } else if starts_word(b[p]) {
        let q = run_end(b, p, ByteClass::Word);
        (Ok(Token::Str(b.subrange(p, q))), q)
    } else if starts_num(b[p]) {
        let q = run_end(b, p, ByteClass::Number);
        (Ok(Token::Num(b.subrange(p, q))), q)
    } else {
        (Err(LexError::InvalidCharacter(b[p])), p)
    }
}

impl<'t> Lexeme<'t> {
    /// The word of a `Str` lexeme.
    pub fn unwrap_str(&self) -> (r: &'t str)
        requires
            self is Str,
        ensures
            *self == Lexeme::Str(r),
    {
        match self {
            Lexeme::Str(stri) => stri,
            _ => vstd::pervasive::unreached(),
        }
    }

    /// The text of a `Num` lexeme.
    pub fn unwrap_num(&self) -> (r: &'t str)
        requires
            self is Num,
        ensures
            *self == Lexeme::Num(r),
    {
        match self {
            Lexeme::Num(num) => num,
            _ => vstd::pervasive::unreached(),
        }
    }
}

impl<'t> View for Lexeme<'t> {
    type V = Token;

    open spec fn view(&self) -> Token {
        match self {
            Lexeme::Str(s) => Token::Str(s.spec_bytes()),
            Lexeme::Qoutes => Token::Qoutes,
            Lexeme::OpenBracket => Token::OpenBracket,
            Lexeme::CloseBracket => Token::CloseBracket,
            Lexeme::Num(s) => Token::Num(s.spec_bytes()),
            Lexeme::Eof => Token::Eof,
        }
    }
}

pub open spec fn result_view<'t>(r: Result<Lexeme<'t>, LexError>) -> Result<Token, LexError> {
    match r {
        Ok(l) => Ok(l@),
        Err(e) => Err(e),
    }
}

proof fn lemma_run_end(b: Seq<u8>, i: int, c: ByteClass)
    requires
        0 <= i <= b.len(),
    ensures
        i <= run_end(b, i, c) <= b.len(),
        forall|k: int| i <= k < run_end(b, i, c) ==> in_class(c, #[trigger] b[k]),
        run_end(b, i, c) == b.len() || !in_class(c, b[run_end(b, i, c)]),
    decreases b.len() - i,
{
    if i < b.len() && in_class(c, b[i]) {
        lemma_run_end(b, i + 1, c);
    }
}

proof fn lemma_skip_end(b: Seq<u8>, i: int, in_comment: bool)
    requires
        0 <= i <= b.len(),
    ensures
        i <= skip_end(b, i, in_comment) <= b.len(),
        skip_end(b, i, in_comment) < b.len() ==> {
            let p = skip_end(b, i, in_comment);
            &&& !is_space(b[p])
            &&& b[p] != 35
            &&& (p == i ==> !in_comment)
            &&& (p > i ==> b[p - 1] < 128)
        },
    decreases b.len() - i,
{
    if i < b.len() {
        if in_comment || is_space(b[i]) || b[i] == 35 {
            lemma_skip_end(b, i + 1, if in_comment { b[i] != 10 } else { b[i] == 35 });
        }
    }
}

/// In valid UTF-8, a position at the end, at an ASCII byte or right after one is a
/// character boundary.
proof fn lemma_ascii_boundary(b: Seq<u8>, i: int)
    requires
        valid_utf8(b),
        0 <= i <= b.len(),
        i == b.len() || b[i] < 128 || (i > 0 && b[i - 1] < 128),
    ensures
        is_char_boundary(b, i),
{
    if i == b.len() {
        is_char_boundary_start_end_of_seq(b);
    } else if b[i] < 128 {
        is_char_boundary_iff_not_is_continuation_byte(b, i);
    } else {
        is_char_boundary_iff_not_is_continuation_byte(b, i - 1);
        valid_utf8_split(b, i - 1);
        let c = b.subrange(i - 1, b.len() as int);
        assert(valid_utf8(c));
        assert(length_of_first_scalar(c) == 1);
        let d = pop_first_scalar(c);
        assert(d =~= b.subrange(i, b.len() as int));
        assert(valid_utf8(d));
        assert(d.len() > 0);
        assert(valid_first_scalar(d));
        assert(d[0] == b[i]);
        is_char_boundary_iff_not_is_continuation_byte(b, i);
    }
}

/// Reads the scene description text one token at a time, with one token of lookahead.
pub struct Lexer<'t> {
    txt: &'t str,
    pos: usize,
    lexeme_buf: Option<Lexeme<'t>>,
}

impl<'t> Lexer<'t> {
    /// The bytes of the whole text.
    pub closed spec fn bytes(&self) -> Seq<u8> {
        self.txt.spec_bytes()
    }

    /// How many bytes have been consumed.
    pub closed spec fn pos(&self) -> int {
        self.pos as int
    }

    /// The token that `peek` read ahead, if any.
    pub closed spec fn buffered(&self) -> Option<Token> {
        match self.lexeme_buf {
            Some(l) => Some(l@),
            None => None,
        }
    }

    pub closed spec fn wf(&self) -> bool {
        &&& self.pos <= self.txt.spec_bytes().len()
        &&& is_char_boundary(self.txt.spec_bytes(), self.pos as int)
    }

    pub fn new(txt: &'t str) -> (r: Self)
        ensures
            r.wf(),
            r.bytes() == txt.spec_bytes(),
            r.pos() == 0,
            r.buffered() is None,
    {
        proof {
            encode_utf8_valid_utf8(txt@);
            is_char_boundary_start_end_of_seq(txt.spec_bytes());
        }
        Self { txt, pos: 0, lexeme_buf: None }
    }

    /// Returns the next token without consuming it.
    pub fn peek(&mut self) -> (r: Result<Lexeme<'t>, LexError>)
        requires
            old(self).wf(),
        ensures
            final(self).wf(),
            final(self).bytes() == old(self).bytes(),
            match old(self).buffered() {
                Some(t) => {
                    &&& r is Ok
                    &&& r->Ok_0@ == t
                    &&& *final(self) == *old(self)
                },
                None => {
                    let (res, end) = lex_step(old(self).bytes(), old(self).pos());
                    &&& result_view(r) == res
                    &&& final(self).pos() == end
                    &&& final(self).buffered() == match res {
                        Ok(t) => Some(t),
                        Err(_) => None::<Token>,
                    }
                },
            },
    {
        match self.lexeme_buf {
            Some(l) => Ok(l),
            None => {
                let l = self.next()?;
                self.lexeme_buf = Some(l);
                Ok(l)
            },
        }
    }

    /// Consumes and returns the next token.
    pub fn next(&mut self) -> (r: Result<Lexeme<'t>, LexError>)
        requires
            old(self).wf(),
        ensures
            final(self).wf(),
            final(self).bytes() == old(self).bytes(),
            final(self).buffered() is None,
            match old(self).buffered() {
                Some(t) => {
                    &&& r is Ok
                    &&& r->Ok_0@ == t
                    &&& final(self).pos() == old(self).pos()
                },
                None => {
                    let (res, end) = lex_step(old(self).bytes(), old(self).pos());
                    &&& result_view(r) == res
                    &&& final(self).pos() == end
                },
            },
    {
        if let Some(l) = self.lexeme_buf.take() {
            return Ok(l);
        }
        let next = self.peek_char();
        if let Some(next) = next {
            if next == 35 || is_space_byte(next) {
                self.skip_whitespace_comments();
            }
        }
        proof {
            lemma_skip_end(self.bytes(), self.pos(), false);
        }
        let next = self.peek_char();
        match next {
            Some(ch) => {
                if ch == 34 {
                    self.advance();
                    Ok(Lexeme::Qoutes)
                } else if ch == 91 {
                    self.advance();
                    Ok(Lexeme::OpenBracket)
                } else if ch == 93 {
                    self.advance();
                    Ok(Lexeme::CloseBracket)
                } else if (65 <= ch && ch <= 90) || (97 <= ch && ch <= 122) || ch >= 128 {
                    Ok(self.lex_str())
                } else if ch == 45 || ch == 46 || (48 <= ch && ch <= 57) {
                    Ok(self.lex_num())
                } else {
                    Err(LexError::InvalidCharacter(ch))
                }
            },
            None => Ok(Lexeme::Eof),
        }
    }

    fn lex_str(&mut self) -> (r: Lexeme<'t>)
        requires
            old(self).wf(),
            old(self).lexeme_buf is None,
            old(self).pos() < old(self).bytes().len(),
            in_class(ByteClass::Word, old(self).bytes()[old(self).pos()]),
        ensures
            final(self).wf(),
            final(self).bytes() == old(self).bytes(),
            final(self).lexeme_buf is None,
            final(self).pos() == run_end(old(self).bytes(), old(self).pos(), ByteClass::Word),
            r@ == Token::Str(old(self).bytes().subrange(old(self).pos(), final(self).pos())),
    {
        let s = self.advance_while(ByteClass::Word);
        Lexeme::Str(s)
    }

    fn lex_num(&mut self) -> (r: Lexeme<'t>)
        requires
            old(self).wf(),
            old(self).lexeme_buf is None,
            old(self).pos() < old(self).bytes().len(),
            in_class(ByteClass::Number, old(self).bytes()[old(self).pos()]),
        ensures
            final(self).wf(),
            final(self).bytes() == old(self).bytes(),
            final(self).lexeme_buf is None,
            final(self).pos() == run_end(old(self).bytes(), old(self).pos(), ByteClass::Number),
            r@ == Token::Num(old(self).bytes().subrange(old(self).pos(), final(self).pos())),
    {
        let s = self.advance_while(ByteClass::Number);
        Lexeme::Num(s)
    }

    fn skip_whitespace_comments(&mut self)
        requires
            old(self).wf(),
            old(self).lexeme_buf is None,
        ensures
            final(self).wf(),
            final(self).bytes() == old(self).bytes(),
            final(self).lexeme_buf is None,
            final(self).pos() == skip_end(old(self).bytes(), old(self).pos(), false),
    {
        let ghost b = self.bytes();
        let ghost start = self.pos();
        loop
            invariant
                self.wf(),
                self.bytes() == b,
                b == old(self).bytes(),
                start == old(self).pos(),
                self.lexeme_buf is None,
                skip_end(b, start, false) == skip_end(b, self.pos(), false),
            ensures
                self.wf(),
                self.bytes() == b,
                self.lexeme_buf is None,
                self.pos() == skip_end(b, start, false),
            decreases b.len() - self.pos(),
        {
            let ch = match self.peek_char() {
                Some(ch) => ch,
                None => {
                    assert(skip_end(b, self.pos(), false) == self.pos());
                    break;
                },
            };
            if ch == 35 {
                let ghost p = self.pos();
                self.advance_while(ByteClass::Line);
                proof {
                    lemma_run_end(b, p, ByteClass::Line);
                    lemma_comment_skip(b, p + 1, self.pos());
                }
                if self.peek_char().is_some() {
                    self.advance();
                }
            } else if is_space_byte(ch) {
                let ghost p = self.pos();
                self.advance_while(ByteClass::Space);
                proof {
                    lemma_run_end(b, p, ByteClass::Space);
                    lemma_space_skip(b, p, self.pos());
                }
            } else {
                assert(skip_end(b, self.pos(), false) == self.pos());
                break;
            }
        }
    }

    /// Consumes the longest run of bytes of class `class`, which must not be empty.
    fn advance_while(&mut self, class: ByteClass) -> (r: &'t str)
        requires
            old(self).wf(),
            old(self).lexeme_buf is None,
            old(self).pos() < old(self).bytes().len(),
            in_class(class, old(self).bytes()[old(self).pos()]),
        ensures
            final(self).wf(),
            final(self).bytes() == old(self).bytes(),
            final(self).lexeme_buf is None,
            final(self).pos() == run_end(old(self).bytes(), old(self).pos(), class),
            r.spec_bytes() == old(self).bytes().subrange(old(self).pos(), final(self).pos()),
    {
        let bytes = self.txt.as_bytes();
        let ghost b = self.bytes();
        let mut index: usize = self.pos;
        while index < bytes.len() && byte_in_class(class, bytes[index])
            invariant
                bytes@ == b,
                self.pos <= index <= b.len(),
                run_end(b, self.pos as int, class) == run_end(b, index as int, class),
            decreases b.len() - index,
        {
            index += 1;
        }
        proof {
            lemma_run_end(b, self.pos as int, class);
            encode_utf8_valid_utf8(self.txt@);
        }
        let (_, rest) = self.txt.split_at(self.pos);
        proof {
            encode_utf8_valid_utf8(rest@);
            let rb = rest.spec_bytes();
            let k = index - self.pos;
            assert(rb =~= b.subrange(self.pos as int, b.len() as int));
            if index < b.len() && b[index as int] >= 128 {
                assert(b[index - 1] < 128);
                assert(rb[k - 1] == b[index - 1]);
            }
            lemma_ascii_boundary(rb, k);
            lemma_ascii_boundary(b, index as int);
        }
        let (s, _) = rest.split_at(index - self.pos);
        proof {
            assert(s.spec_bytes() =~= b.subrange(self.pos as int, index as int));
        }
        self.pos = index;
        s
    }

    /// Consumes one ASCII byte.
    fn advance(&mut self) -> (r: u8)
        requires
            old(self).wf(),
            old(self).pos() < old(self).bytes().len(),
            old(self).bytes()[old(self).pos()] < 128,
        ensures
            final(self).wf(),
            final(self).bytes() == old(self).bytes(),
            final(self).lexeme_buf == old(self).lexeme_buf,
            final(self).pos() == old(self).pos() + 1,
            r == old(self).bytes()[old(self).pos()],
    {
        let c = self.txt.as_bytes()[self.pos];
        proof {
            encode_utf8_valid_utf8(self.txt@);
            lemma_ascii_boundary(self.bytes(), self.pos() + 1);
        }
        self.pos = self.pos + 1;
        c
    }

    fn peek_char(&self) -> (r: Option<u8>)
        requires
            self.wf(),
        ensures
            r == (if self.pos() < self.bytes().len() {
                Some(self.bytes()[self.pos()])
            } else {
                None::<u8>
            }),
    {
        let bytes = self.txt.as_bytes();
        if self.pos < bytes.len() {
            Some(bytes[self.pos])
        } else {
            None
        }
    }
}

/// Whether `b` is ASCII whitespace.
fn is_space_byte(b: u8) -> (r: bool)
    ensures
        r == is_space(b),
{
    b == 9 || b == 10 || b == 12 || b == 13 || b == 32
}

fn byte_in_class(c: ByteClass, b: u8) -> (r: bool)
    ensures
        r == in_class(c, b),
{
    match c {
        ByteClass::Word => !(b == 34 || is_space_byte(b) || b == 11),
        ByteClass::Number => b == 45 || b == 46 || b == 101 || (48 <= b && b <= 57),
        ByteClass::Line => b != 10,
        ByteClass::Space => is_space_byte(b),
    }
}

/// Inside a comment, skipping runs up to the line feed at `q` or the end.
proof fn lemma_comment_skip(b: Seq<u8>, i: int, q: int)
    requires
        0 <= i <= q <= b.len(),
        forall|k: int| i <= k < q ==> b[k] != 10,
        q == b.len() || b[q] == 10,
    ensures
        skip_end(b, i, true) == if q < b.len() {
            skip_end(b, q + 1, false)
        } else {
            q
        },
    decreases q - i,
{
    if i < q {
        lemma_comment_skip(b, i + 1, q);
    }
}

/// Over a run of whitespace up to `q`, skipping goes on from `q`.
proof fn lemma_space_skip(b: Seq<u8>, i: int, q: int)
    requires
        0 <= i <= q <= b.len(),
        forall|k: int| i <= k < q ==> is_space(#[trigger] b[k]),
    ensures
        skip_end(b, i, false) == skip_end(b, q, false),
    decreases q - i,
{
    if i < q {
        lemma_space_skip(b, i + 1, q);
    }
}

} // verus!
