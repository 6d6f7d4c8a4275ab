use vstd::prelude::*;
use vstd::utf8::*;
use vstd::string::*;
use crate::token::{Token, TokenView, literal_of};

verus! {

broadcast use vstd::utf8::encode_utf8_valid_utf8, vstd::utf8::encode_utf8_decode_utf8;

// The ASCII codes of the bytes that the scanner classifies.
pub const SPACE: u8 = 32;
pub const TAB: u8 = 9;
pub const NEWLINE: u8 = 10;
pub const CARRIAGE_RETURN: u8 = 13;
pub const LOWER_A: u8 = 97;
pub const LOWER_Z: u8 = 122;
pub const UPPER_A: u8 = 65;
pub const UPPER_Z: u8 = 90;
pub const UNDERSCORE: u8 = 95;
pub const DIGIT_ZERO: u8 = 48;
pub const DIGIT_NINE: u8 = 57;
pub const EQUALS_SIGN: u8 = 61;
pub const PLUS_SIGN: u8 = 43;
pub const MINUS_SIGN: u8 = 45;
pub const EXCLAMATION: u8 = 33;
pub const ASTERISK: u8 = 42;
pub const SLASH: u8 = 47;
pub const LESS_THAN: u8 = 60;
pub const GREATER_THAN: u8 = 62;
pub const COMMA: u8 = 44;
pub const SEMICOLON: u8 = 59;
pub const LEFT_PAREN: u8 = 40;
pub const RIGHT_PAREN: u8 = 41;
pub const LEFT_BRACE: u8 = 123;
pub const RIGHT_BRACE: u8 = 125;

/// Space, tab, newline and carriage return.
pub open spec fn is_space(c: u8) -> bool {
    c == SPACE || c == TAB || c == NEWLINE || c == CARRIAGE_RETURN
}

/// ASCII letters and underscore: the bytes of an identifier or keyword.
pub open spec fn is_letter(c: u8) -> bool {
    (LOWER_A <= c && c <= LOWER_Z) || (UPPER_A <= c && c <= UPPER_Z) || c == UNDERSCORE
}

pub open spec fn is_digit(c: u8) -> bool {
    DIGIT_ZERO <= c && c <= DIGIT_NINE
}

/// The characters that a run of ASCII bytes stands for.
pub open spec fn chars_of(b: Seq<u8>) -> Seq<char> {
    b.map_values(|x: u8| (x as u32) as char)
}

/// The first position at or after `p` that does not hold a space.
pub open spec fn skip_spaces(b: Seq<u8>, p: int) -> int
    decreases b.len() - p,
{
    if 0 <= p < b.len() && is_space(b[p]) {
        skip_spaces(b, p + 1)
    } else {
        p
    }
}

/// The end of the maximal run of letters that starts at `p`.
pub open spec fn letters_end(b: Seq<u8>, p: int) -> int
    decreases b.len() - p,
{
    if 0 <= p < b.len() && is_letter(b[p]) {
        letters_end(b, p + 1)
    } else {
        p
    }
}

/// The end of the maximal run of digits that starts at `p`.
pub open spec fn digits_end(b: Seq<u8>, p: int) -> int
    decreases b.len() - p,
{
    if 0 <= p < b.len() && is_digit(b[p]) {
        digits_end(b, p + 1)
    } else {
        p
    }
}

/// A word is a keyword when it spells one; otherwise it is an identifier.
pub open spec fn word_token(w: Seq<char>) -> TokenView {
    if w == literal_of(TokenView::Function) {
        TokenView::Function
    } else if w == literal_of(TokenView::Let) {
        TokenView::Let
    } else if w == literal_of(TokenView::True) {
        TokenView::True
    } else if w == literal_of(TokenView::False) {
        TokenView::False
    } else if w == literal_of(TokenView::If) {
        TokenView::If
    } else if w == literal_of(TokenView::Else) {
        TokenView::Else
    } else if w == literal_of(TokenView::Return) {
        TokenView::Return
    } else {
        TokenView::Ident(w)
    }
}

/// The one-byte operators and delimiters; every other byte is illegal.
pub open spec fn symbol_token(c: u8) -> TokenView {
    if c == EQUALS_SIGN {
        TokenView::Assign
    } else if c == PLUS_SIGN {
        TokenView::Plus
    } else if c == MINUS_SIGN {
        TokenView::Minus
    } else if c == EXCLAMATION {
        TokenView::Bang
    } else if c == ASTERISK {
        TokenView::Asterisk
    } else if c == SLASH {
        TokenView::Slash
    } else if c == LESS_THAN {
        TokenView::LessThan
    } else if c == GREATER_THAN {
        TokenView::GreaterThan
    } else if c == COMMA {
        TokenView::Comma
    } else if c == SEMICOLON {
        TokenView::Semicolon
    } else if c == LEFT_PAREN {
        TokenView::LParen
    } else if c == RIGHT_PAREN {
        TokenView::RParen
    } else if c == LEFT_BRACE {
        TokenView::LBrace
    } else if c == RIGHT_BRACE {
        TokenView::RBrace
    } else {
        TokenView::Illegal
    }
}

/// Whether `=` or `!` at position `s` is followed by `=`.
pub open spec fn doubled(b: Seq<u8>, s: int) -> bool {
    (b[s] == EQUALS_SIGN || b[s] == EXCLAMATION) && s + 1 < b.len() && b[s + 1] == EQUALS_SIGN
}

/// The token that starts at or after position `p`, and the position after it.
pub open spec fn scan(b: Seq<u8>, p: int) -> (TokenView, int) {
    let s = skip_spaces(b, p);
    if s >= b.len() {
        (TokenView::EOF, s)
    } else if is_letter(b[s]) {
        let e = letters_end(b, s);
        (word_token(chars_of(b.subrange(s, e))), e)
    } else if is_digit(b[s]) {
        let e = digits_end(b, s);
        (TokenView::Int(chars_of(b.subrange(s, e))), e)
    } else if doubled(b, s) {
        (if b[s] == EQUALS_SIGN { TokenView::Equal } else { TokenView::NotEqual }, s + 2)
    } else {
        (symbol_token(b[s]), s + 1)
    }
}

/// Every token from position `p` on, up to but not including the end of input.
pub open spec fn lex_from(b: Seq<u8>, p: int) -> Seq<TokenView>
    decreases b.len() - p,
{
    let (t, q) = scan(b, p);
    if t == TokenView::EOF || q <= p || q > b.len() {
        Seq::empty()
    } else {
        seq![t] + lex_from(b, q)
    }
}

/// Every token of a source text, in order, up to but not including the end of input.
pub open spec fn tokens_of(b: Seq<u8>) -> Seq<TokenView> {
    lex_from(b, 0)
}

pub proof fn lemma_skip_spaces(b: Seq<u8>, p: int)
    requires
        0 <= p <= b.len(),
    ensures
        p <= skip_spaces(b, p) <= b.len(),
        forall|i: int| p <= i < skip_spaces(b, p) ==> is_space(#[trigger] b[i]),
        skip_spaces(b, p) < b.len() ==> !is_space(b[skip_spaces(b, p)]),
    decreases b.len() - p,
{
    if p < b.len() && is_space(b[p]) {
        lemma_skip_spaces(b, p + 1);
    }
}

pub proof fn lemma_letters_end(b: Seq<u8>, p: int)
    requires
        0 <= p <= b.len(),
    ensures
        p <= letters_end(b, p) <= b.len(),
        forall|i: int| p <= i < letters_end(b, p) ==> is_letter(#[trigger] b[i]),
    decreases b.len() - p,
{
    if p < b.len() && is_letter(b[p]) {
        lemma_letters_end(b, p + 1);
    }
}

pub proof fn lemma_digits_end(b: Seq<u8>, p: int)
    requires
        0 <= p <= b.len(),
    ensures
        p <= digits_end(b, p) <= b.len(),
        forall|i: int| p <= i < digits_end(b, p) ==> is_digit(#[trigger] b[i]),
    decreases b.len() - p,
{
    if p < b.len() && is_digit(b[p]) {
        lemma_digits_end(b, p + 1);
    }
}

/// A scan ends at the end of input exactly when it yields the end-of-input
/// token, and otherwise moves forward.
pub proof fn lemma_scan_advances(b: Seq<u8>, p: int)
    requires
        0 <= p <= b.len(),
    ensures
        scan(b, p).0 == TokenView::EOF ==> scan(b, p).1 == b.len(),
        scan(b, p).0 != TokenView::EOF ==> p < scan(b, p).1 <= b.len(),
{
    lemma_skip_spaces(b, p);
    let s = skip_spaces(b, p);
    if s < b.len() {
        lemma_letters_end(b, s + 1);
        lemma_digits_end(b, s + 1);
        assert(word_token(chars_of(b.subrange(s, letters_end(b, s)))) != TokenView::EOF);
    }
}

/// The remaining token stream is the scanned token followed by the stream
/// after it; at the end of input it is empty.
pub proof fn lemma_lex_step(b: Seq<u8>, p: int)
    requires
        0 <= p <= b.len(),
    ensures
        scan(b, p).0 == TokenView::EOF ==> lex_from(b, p).len() == 0 && lex_from(b, scan(b, p).1).len() == 0,
        scan(b, p).0 != TokenView::EOF ==> lex_from(b, p) == seq![scan(b, p).0] + lex_from(b, scan(b, p).1),
{
    lemma_scan_advances(b, p);
    if scan(b, p).0 == TokenView::EOF {
        lemma_scan_advances(b, b.len() as int);
        lemma_skip_spaces(b, b.len() as int);
    }
}

/// The stream never holds the end-of-input token itself.
pub proof fn lemma_lex_no_eof(b: Seq<u8>, p: int)
    requires
        0 <= p <= b.len(),
    ensures
        forall|i: int| 0 <= i < lex_from(b, p).len() ==> #[trigger] lex_from(b, p)[i] != TokenView::EOF,
    decreases b.len() - p,
{
    lemma_lex_step(b, p);
    lemma_scan_advances(b, p);
    if scan(b, p).0 != TokenView::EOF {
        lemma_lex_no_eof(b, scan(b, p).1);
        assert forall|i: int| 0 <= i < lex_from(b, p).len() implies #[trigger] lex_from(b, p)[i] != TokenView::EOF by {
            if i > 0 {
                assert(lex_from(b, p)[i] == lex_from(b, scan(b, p).1)[i - 1]);
            }
        }
    }
}

/// A source text of spaces alone holds no token: its first token is the end
/// of input.
pub proof fn whitespace_only_is_end_of_input(b: Seq<u8>)
    requires
        forall|i: int| 0 <= i < b.len() ==> is_space(#[trigger] b[i]),
    ensures
        scan(b, 0).0 == TokenView::EOF,
        tokens_of(b).len() == 0,
{
    lemma_skip_spaces_all(b, 0);
    lemma_lex_step(b, 0);
}

proof fn lemma_skip_spaces_all(b: Seq<u8>, p: int)
    requires
        0 <= p <= b.len(),
        forall|i: int| p <= i < b.len() ==> is_space(#[trigger] b[i]),
    ensures
        skip_spaces(b, p) == b.len(),
    decreases b.len() - p,
{
    if p < b.len() {
        lemma_skip_spaces_all(b, p + 1);
    }
}

/// A one-byte operator or delimiter that does not begin `==` or `!=`.
pub open spec fn single_symbol_at(b: Seq<u8>, i: int) -> bool {
    symbol_token(b[i]) != TokenView::Illegal && !doubled(b, i)
}

/// A text made only of one-byte operators and delimiters scans to exactly one
/// token per byte, in order, each given by the fixed table.
pub proof fn symbols_scan_one_to_one(b: Seq<u8>)
    requires
        forall|i: int| 0 <= i < b.len() ==> #[trigger] single_symbol_at(b, i),
    ensures
        tokens_of(b) == b.map_values(|c: u8| symbol_token(c)),
{
    lemma_symbols_from(b, 0);
    assert(b.subrange(0, b.len() as int) =~= b);
}

proof fn lemma_symbols_from(b: Seq<u8>, p: int)
    requires
        0 <= p <= b.len(),
        forall|i: int| 0 <= i < b.len() ==> #[trigger] single_symbol_at(b, i),
    ensures
        lex_from(b, p) == b.subrange(p, b.len() as int).map_values(|c: u8| symbol_token(c)),
    decreases b.len() - p,
{
    lemma_lex_step(b, p);
    if p < b.len() {
        assert(single_symbol_at(b, p));
        assert(!is_space(b[p]) && !is_letter(b[p]) && !is_digit(b[p]));
        assert(skip_spaces(b, p) == p);
        lemma_symbols_from(b, p + 1);
        assert(b.subrange(p, b.len() as int).map_values(|c: u8| symbol_token(c)) =~= seq![symbol_token(b[p])]
            + b.subrange(p + 1, b.len() as int).map_values(|c: u8| symbol_token(c)));
    } else {
        assert(b.subrange(p, b.len() as int).map_values(|c: u8| symbol_token(c)) =~= Seq::<TokenView>::empty());
    }
}

/// `==` and `!=` scan as one two-byte token each; a lone `=` or `!` scans as
/// `Assign` or `Bang`.
pub proof fn two_byte_operators(b: Seq<u8>, p: int)
    requires
        0 <= p < b.len(),
    ensures
        b[p] == EQUALS_SIGN && p + 1 < b.len() && b[p + 1] == EQUALS_SIGN ==> scan(b, p) == (TokenView::Equal, p + 2),
        b[p] == EXCLAMATION && p + 1 < b.len() && b[p + 1] == EQUALS_SIGN ==> scan(b, p) == (TokenView::NotEqual, p + 2),
        b[p] == EQUALS_SIGN && !(p + 1 < b.len() && b[p + 1] == EQUALS_SIGN) ==> scan(b, p) == (TokenView::Assign, p + 1),
        b[p] == EXCLAMATION && !(p + 1 < b.len() && b[p + 1] == EQUALS_SIGN) ==> scan(b, p) == (TokenView::Bang, p + 1),
{
}

/// In valid UTF-8, every position inside or just after an ASCII prefix starts
/// a character.
proof fn lemma_ascii_prefix_boundary(bytes: Seq<u8>, k: int)
    requires
        valid_utf8(bytes),
        0 <= k <= bytes.len(),
        forall|i: int| 0 <= i < k ==> #[trigger] bytes[i] < 128,
    ensures
        is_char_boundary(bytes, k),
    decreases k,
{
    if k > 0 {
        assert(bytes[0] < 128);
        let rest = pop_first_scalar(bytes);
        assert(rest =~= bytes.subrange(1, bytes.len() as int));
        assert forall|i: int| 0 <= i < k - 1 implies #[trigger] rest[i] < 128 by {
            assert(rest[i] == bytes[i + 1]);
        }
        lemma_ascii_prefix_boundary(rest, k - 1);
    }
}

/// Whether `ident` spells `word`.
fn spells(ident: &String, word: &str) -> (r: bool)
    ensures
        r == (ident@ == word@),
{
    let w = word.to_string();
    ident.eq(&w)
}

/// The scanner's cursor over the bytes of a source text.
pub struct Lexer {
    input: String,
    position: usize,
    read_position: usize,
    ch: u8,
}

impl Lexer {
    /// The bytes being scanned.
    pub closed spec fn bytes(&self) -> Seq<u8> {
        encode_utf8(self.input@)
    }

    /// The position of the byte under examination.
    pub closed spec fn cursor(&self) -> int {
        self.position as int
    }

    pub closed spec fn wf(&self) -> bool {
        &&& self.position <= self.bytes().len()
        &&& self.read_position == (if self.position < self.bytes().len() { self.position + 1 } else { self.position as int })
        &&& self.ch == (if self.position < self.bytes().len() { self.bytes()[self.position as int] } else { 0u8 })
    }

    /// The tokens still to come, up to but not including the end of input.
    pub open spec fn rest(&self) -> Seq<TokenView> {
        lex_from(self.bytes(), self.cursor())
    }

    pub proof fn lemma_wf_cursor(&self)
        requires
            self.wf(),
        ensures
            0 <= self.cursor() <= self.bytes().len(),
    {
    }

    /// A scanner positioned at the first byte of `source`.
    pub fn new(source: String) -> (l: Lexer)
        ensures
            l.wf(),
            l.bytes() == encode_utf8(source@),
            l.cursor() == 0,
            l.rest() == tokens_of(encode_utf8(source@)),
    {
        let bytes = source.as_str().as_bytes();
        let (read_position, ch) = if bytes.len() > 0 {
            (1, bytes[0])
        } else {
            (0, 0)
        };
        Lexer { input: source, position: 0, read_position, ch }
    }

    fn read_char(&mut self)
        requires
            old(self).wf(),
            old(self).cursor() < old(self).bytes().len(),
        ensures
            final(self).wf(),
            final(self).input == old(self).input,
            final(self).cursor() == old(self).cursor() + 1,
    {
        let bytes = self.input.as_str().as_bytes();
        self.position = self.read_position;
        if self.read_position < bytes.len() {
            self.ch = bytes[self.read_position];
            self.read_position = self.read_position + 1;
        } else {
            self.ch = 0;
        }
    }

    fn peek_char(&self) -> (c: u8)
        requires
            self.wf(),
        ensures
            c == (if self.cursor() + 1 < self.bytes().len() { self.bytes()[self.cursor() + 1] } else { 0u8 }),
    {
        let bytes = self.input.as_str().as_bytes();
        if self.read_position >= bytes.len() {
            0
        } else {
            bytes[self.read_position]
        }
    }

    fn skip_whitespace(&mut self)
        requires
            old(self).wf(),
        ensures
            final(self).wf(),
            final(self).input == old(self).input,
            final(self).cursor() == skip_spaces(old(self).bytes(), old(self).cursor()),
    {
        while self.ch == SPACE || self.ch == TAB || self.ch == NEWLINE || self.ch == CARRIAGE_RETURN
            invariant
                self.wf(),
                self.input == old(self).input,
                skip_spaces(self.bytes(), self.cursor()) == skip_spaces(old(self).bytes(), old(self).cursor()),
            decreases self.bytes().len() - self.cursor(),
        {
            self.read_char();
        }
    }

    /// The characters of the bytes from `start` to `end`, all of them ASCII.
    fn text_between(&self, start: usize, end: usize) -> (r: String)
        requires
            self.wf(),
            start < end <= self.bytes().len(),
            forall|i: int| start <= i < end ==> #[trigger] self.bytes()[i] < 128,
        ensures
            r@ == chars_of(self.bytes().subrange(start as int, end as int)),
    {
        let s = self.input.as_str();
        let ghost b = self.bytes();
        proof {
            assert(s.spec_bytes() == b);
            is_char_boundary_iff_not_is_continuation_byte(b, start as int);
        }
        let (_, tail) = s.split_at(start);
        let ghost tb = tail.spec_bytes();
        proof {
            assert(tb =~= b.subrange(start as int, b.len() as int));
            encode_utf8_valid_utf8(tail@);
            lemma_ascii_prefix_boundary(tb, (end - start) as int);
        }
        let (mid, _) = tail.split_at(end - start);
        let r = mid.to_owned();
        proof {
            let sub = b.subrange(start as int, end as int);
            assert(mid.spec_bytes() =~= sub);
            let c = chars_of(sub);
            assert(is_ascii_chars(c));
            is_ascii_chars_encode_utf8(c);
            assert(encode_utf8(c) =~= sub);
            encode_utf8_decode_utf8(c);
            encode_utf8_decode_utf8(r@);
        }
        r
    }

    fn read_ident(&mut self) -> (r: String)
        requires
            old(self).wf(),
            old(self).cursor() < old(self).bytes().len(),
            is_letter(old(self).bytes()[old(self).cursor()]),
        ensures
            final(self).wf(),
            final(self).input == old(self).input,
            final(self).cursor() == letters_end(old(self).bytes(), old(self).cursor()),
            r@ == chars_of(old(self).bytes().subrange(old(self).cursor(), final(self).cursor())),
    {
        let pos = self.position;
        while (LOWER_A <= self.ch && self.ch <= LOWER_Z) || (UPPER_A <= self.ch && self.ch <= UPPER_Z) || self.ch == UNDERSCORE
            invariant
                self.wf(),
                self.input == old(self).input,
                pos <= self.position,
                pos == old(self).cursor(),
                letters_end(self.bytes(), self.cursor()) == letters_end(old(self).bytes(), pos as int),
                forall|i: int| pos <= i < self.position ==> is_letter(#[trigger] self.bytes()[i]),
            decreases self.bytes().len() - self.cursor(),
        {
            self.read_char();
        }
        self.text_between(pos, self.position)
    }

    fn read_number(&mut self) -> (r: String)
        requires
            old(self).wf(),
            old(self).cursor() < old(self).bytes().len(),
            is_digit(old(self).bytes()[old(self).cursor()]),
        ensures
            final(self).wf(),
            final(self).input == old(self).input,
            final(self).cursor() == digits_end(old(self).bytes(), old(self).cursor()),
            r@ == chars_of(old(self).bytes().subrange(old(self).cursor(), final(self).cursor())),
    {
        let pos = self.position;
        while DIGIT_ZERO <= self.ch && self.ch <= DIGIT_NINE
            invariant
                self.wf(),
                self.input == old(self).input,
                pos <= self.position,
                pos == old(self).cursor(),
                digits_end(self.bytes(), self.cursor()) == digits_end(old(self).bytes(), pos as int),
                forall|i: int| pos <= i < self.position ==> is_digit(#[trigger] self.bytes()[i]),
            decreases self.bytes().len() - self.cursor(),
        {
            self.read_char();
        }
        self.text_between(pos, self.position)
    }

    /// The keyword that `ident` spells, or an identifier token holding it.
    fn lookup_ident(&self, ident: String) -> (t: Token)
        ensures
            t@ == word_token(ident@),
    {
        proof {
            reveal_strlit("fn");
            assert("fn"@ =~= seq!['f','n']);
            reveal_strlit("let");
            assert("let"@ =~= seq!['l','e','t']);
            reveal_strlit("true");
            assert("true"@ =~= seq!['t','r','u','e']);
            reveal_strlit("false");
            assert("false"@ =~= seq!['f','a','l','s','e']);
            reveal_strlit("if");
            assert("if"@ =~= seq!['i','f']);
            reveal_strlit("else");
            assert("else"@ =~= seq!['e','l','s','e']);
            reveal_strlit("return");
            assert("return"@ =~= seq!['r','e','t','u','r','n']);
        }
        if spells(&ident, "fn") {
            Token::Function
        } else if spells(&ident, "let") {
            Token::Let
        } else if spells(&ident, "true") {
            Token::True
        } else if spells(&ident, "false") {
            Token::False
        } else if spells(&ident, "if") {
            Token::If
        } else if spells(&ident, "else") {
            Token::Else
        } else if spells(&ident, "return") {
            Token::Return
        } else {
            Token::Ident(ident)
        }
    }

    /// Classifies the bytes at the cursor and moves past them. At the end of
    /// input it returns `EOF` and stays put, however often it is called.
    pub fn next_token(&mut self) -> (t: Token)
        requires
            old(self).wf(),
        ensures
            final(self).wf(),
            final(self).bytes() == old(self).bytes(),
            (t@, final(self).cursor()) == scan(old(self).bytes(), old(self).cursor()),
            old(self).rest().len() == 0 ==> t@ == TokenView::EOF && final(self).rest().len() == 0,
            old(self).rest().len() > 0 ==> t@ == old(self).rest()[0] && final(self).rest() == old(self).rest().drop_first(),
    {
        proof {
            lemma_lex_step(self.bytes(), self.cursor());
            lemma_skip_spaces(self.bytes(), self.cursor());
        }
        self.skip_whitespace();
        if self.position >= self.input.as_str().as_bytes().len() {
            return Token::EOF;
        }
        let ch = self.ch;
        if (LOWER_A <= ch && ch <= LOWER_Z) || (UPPER_A <= ch && ch <= UPPER_Z) || ch == UNDERSCORE {
            let ident = self.read_ident();
            return self.lookup_ident(ident);
        }
        if DIGIT_ZERO <= ch && ch <= DIGIT_NINE {
            return Token::Int(self.read_number());
        }
        let token = if ch == EQUALS_SIGN {
            if self.peek_char() == EQUALS_SIGN {
                self.read_char();
                Token::Equal
            } else {
                Token::Assign
            }
        } else if ch == EXCLAMATION {
            if self.peek_char() == EQUALS_SIGN {
                self.read_char();
                Token::NotEqual
            } else {
                Token::Bang
            }
        } else if ch == PLUS_SIGN {
            Token::Plus
        } else if ch == MINUS_SIGN {
            Token::Minus
        } else if ch == ASTERISK {
            Token::Asterisk
        } else if ch == SLASH {
            Token::Slash
        } else if ch == LESS_THAN {
            Token::LessThan
        } else if ch == GREATER_THAN {
            Token::GreaterThan
        } else if ch == COMMA {
            Token::Comma
        } else if ch == SEMICOLON {
            Token::Semicolon
        } else if ch == LEFT_PAREN {
            Token::LParen
        } else if ch == RIGHT_PAREN {
            Token::RParen
        } else if ch == LEFT_BRACE {
            Token::LBrace
        } else if ch == RIGHT_BRACE {
            Token::RBrace
        } else {
            Token::Illegal
        };
        self.read_char();
        token
    }
}

} // verus!
