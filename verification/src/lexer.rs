//! The lexer: source text to tokens.
//!
//! The lexer walks the characters with a cursor that can be marked stale:
//! a stale cursor hands its current character out once more instead of
//! moving on, which is how a token that had to look one character past its
//! end gives that character back. The specification follows the cursor
//! step by step; every byte offset in a token's range is the offset of a
//! character as the cursor counts it.
use vstd::prelude::*;
use crate::source::{utf8_width, char_width};
use crate::symbol_table::{SymbolIndex, SymbolTable, SymbolValue, spec_intern};
use crate::text::{push_char, clear_text, str_equal, char_from_u32, scalar};
use crate::types::SourceRange;

verus! {

/// The reserved words.
#[derive(Debug, PartialEq, Eq, Clone, Copy, Structural)]
pub enum Keyword {
    Fn,
    Struct,
    Impl,
    Namespace,
    Extern,
    Using,
    If,
    Else,
    While,
    For,
    Loop,
    Break,
    Continue,
    Var,
    Return,
    As,
    Const,
}

/// A literal value. A float is kept as its parts: the integer before the
/// point, the base it was written in, and the digits after the point.
#[derive(Debug, PartialEq, Eq, Clone)]
pub enum Literal {
    Integer(i64),
    Float { whole: i64, base: u32, fraction: Vec<u8> },
    String(SymbolIndex),
    Bool(bool),
}

/// The kinds of token.
#[derive(Debug, PartialEq, Eq, Clone)]
pub enum TokenKind {
    LeftParenthesis,
    RightParenthesis,
    LeftAngle,
    RightAngle,
    LeftBracket,
    RightBracket,
    LeftSquare,
    RightSquare,
    Percent,
    Slash,
    Plus,
    Minus,
    Star,
    Caret,
    Colon,
    DoubleColon,
    Comma,
    Dot,
    Bang,
    Equals,
    Underscore,
    Literal(Literal),
    Keyword(Keyword),
    Identifier(SymbolIndex),
    LesserEquals,
    GreaterEquals,
    EqualsTo,
    NotEqualsTo,
    LogicalOr,
    LogicalAnd,
    AddEquals,
    SubEquals,
    MulEquals,
    DivEquals,
    EndOfFile,
}

/// A token and the bytes it spans.
#[derive(Debug, PartialEq, Eq, Clone)]
pub struct Token {
    pub token_kind: TokenKind,
    pub source_range: SourceRange,
}

/// What went wrong while lexing.
#[derive(Debug, PartialEq, Eq, Clone, Copy, Structural)]
pub enum LexErrorKind {
    /// A character that starts no token.
    InvalidCharacter(char),
    /// A string that the text ends in.
    UnterminatedString,
    /// `\u` not followed by `{`.
    CorruptUnicodeEscape,
    /// A character in a unicode escape that is no base-16 digit.
    InvalidUnicodeValue,
    /// A number that does not fit in 64 bits.
    NumberTooLarge,
    /// A digit too big for the number's base.
    InvalidNumberForBase { value: char, base: u32 },
    /// A unicode escape that names no character.
    InvalidUnicodeCharacter,
    /// A number with more than one point.
    TooManyDots,
}

/// A lexing error and the bytes it points at.
#[derive(Debug, PartialEq, Eq, Clone, Copy, Structural)]
pub struct LexError {
    pub kind: LexErrorKind,
    pub range: SourceRange,
}

impl LexErrorKind {
    /// The error's number.
    pub fn id(&self) -> (r: u32)
        ensures
            r == error_id(*self),
    {
        match self {
            LexErrorKind::InvalidCharacter(_) => 1,
            LexErrorKind::UnterminatedString => 2,
            LexErrorKind::CorruptUnicodeEscape => 3,
            LexErrorKind::InvalidUnicodeValue => 4,
            LexErrorKind::NumberTooLarge => 5,
            LexErrorKind::InvalidNumberForBase { .. } => 6,
            LexErrorKind::InvalidUnicodeCharacter => 7,
            LexErrorKind::TooManyDots => 8,
        }
    }
}

pub open spec fn error_id(k: LexErrorKind) -> u32 {
    match k {
        LexErrorKind::InvalidCharacter(_) => 1,
        LexErrorKind::UnterminatedString => 2,
        LexErrorKind::CorruptUnicodeEscape => 3,
        LexErrorKind::InvalidUnicodeValue => 4,
        LexErrorKind::NumberTooLarge => 5,
        LexErrorKind::InvalidNumberForBase { .. } => 6,
        LexErrorKind::InvalidUnicodeCharacter => 7,
        LexErrorKind::TooManyDots => 8,
    }
}

/// Where the lexer stands: the position of the next character to read,
/// the character it is on, that character's byte offset, whether the
/// cursor is stale, and how many characters it has asked for.
pub struct LexCursor {
    pub next: nat,
    pub current: Option<char>,
    pub offset: nat,
    pub stale: bool,
    pub count: nat,
}

/// One more, up to the largest `usize`.
pub open spec fn bump(n: nat) -> nat {
    if n < usize::MAX { n + 1 } else { n }
}

/// The cursor after one step: a stale cursor stays where it is and is no
/// longer stale; otherwise it moves past its character to the next one,
/// or to none at the end.
pub open spec fn advance(cs: Seq<char>, c: LexCursor) -> LexCursor {
    if c.stale {
        LexCursor { stale: false, ..c }
    } else {
        let offset = match c.current {
            Some(v) => c.offset + utf8_width(v),
            None => c.offset,
        };
        if c.next < cs.len() {
            LexCursor { next: c.next + 1, current: Some(cs[c.next as int]), offset, stale: false, count: bump(c.count) }
        } else {
            LexCursor { next: c.next, current: None, offset, stale: false, count: bump(c.count) }
        }
    }
}

/// The character after the current one.
pub open spec fn peek(cs: Seq<char>, c: LexCursor) -> Option<char> {
    if c.next < cs.len() { Some(cs[c.next as int]) } else { None }
}

/// What is left for the cursor to do, which every step lowers.
pub open spec fn measure(cs: Seq<char>, c: LexCursor) -> nat {
    let rest: nat = if c.next < cs.len() { (cs.len() - c.next) as nat } else { 0 };
    3 * rest + (if c.stale { 1nat } else { 0 }) + (if c.current is Some { 1nat } else { 0 })
}

/// A step never adds work, and takes some where the cursor is stale, on a
/// character, or before the end.
pub proof fn lemma_advance(cs: Seq<char>, c: LexCursor)
    ensures
        measure(cs, advance(cs, c)) <= measure(cs, c),
        c.stale || c.current is Some || c.next < cs.len() ==> measure(cs, advance(cs, c)) < measure(cs, c),
        advance(cs, c).current is Some ==> measure(cs, advance(cs, c)) < measure(cs, c),
        !advance(cs, c).stale,
{
}

/// The cursor's invariant: it does not run past the text, and the byte
/// offset stays within four bytes a character.
pub open spec fn cursor_wf(cs: Seq<char>, c: LexCursor) -> bool {
    &&& c.next <= cs.len()
    &&& 4 * cs.len() + 8 < usize::MAX
    &&& c.count <= usize::MAX
    &&& c.count >= c.next
    &&& match c.current {
        Some(_) => c.next >= 1 && c.offset + 4 <= 4 * c.next,
        None => c.offset <= 4 * c.next,
    }
}

proof fn lemma_advance_wf(cs: Seq<char>, c: LexCursor)
    requires
        cursor_wf(cs, c),
    ensures
        cursor_wf(cs, advance(cs, c)),
        advance(cs, c).offset >= c.offset,
        c.current is Some && !c.stale ==> advance(cs, c).offset >= c.offset + 1,
{
    if let Some(v) = c.current {
        assert(1 <= utf8_width(v) <= 4);
    }
}

/// The lexer's state: the characters and the cursor over them, and a
/// buffer its scans reuse.
pub struct Lexer {
    characters: Vec<char>,
    next: usize,
    index: usize,
    character_index: usize,
    current: Option<char>,
    stale: bool,
    string_storage: String,
}

impl Lexer {
    pub closed spec fn chars(&self) -> Seq<char> {
        self.characters@
    }

    pub closed spec fn cursor(&self) -> LexCursor {
        LexCursor {
            next: self.next as nat,
            current: self.current,
            offset: self.character_index as nat,
            stale: self.stale,
            count: self.index as nat,
        }
    }

    pub closed spec fn storage(&self) -> Seq<char> {
        self.string_storage@
    }

    pub open spec fn wf(&self) -> bool {
        cursor_wf(self.chars(), self.cursor())
    }

    /// A lexer at the start of `data`: on no character yet.
    pub fn new(data: &str) -> (r: Lexer)
        requires
            4 * data@.len() + 8 < usize::MAX,
        ensures
            r.wf(),
            r.chars() == data@,
            r.cursor() == (LexCursor { next: 0, current: None, offset: 0, stale: false, count: 0 }),
    {
        Lexer {
            characters: crate::text::chars_of(data),
            next: 0,
            index: 0,
            character_index: 0,
            current: None,
            stale: false,
            string_storage: String::new(),
        }
    }

    /// Steps the cursor and returns the character it is then on.
    pub fn advance(&mut self) -> (r: Option<char>)
        requires
            old(self).wf(),
        ensures
            final(self).wf(),
            final(self).chars() == old(self).chars(),
            final(self).storage() == old(self).storage(),
            final(self).cursor() == advance(old(self).chars(), old(self).cursor()),
            r == final(self).cursor().current,
    {
        proof {
            lemma_advance_wf(self.chars(), self.cursor());
        }
        if self.stale {
            self.stale = false;
            return self.current;
        }
        self.index = self.index.saturating_add(1);
        if let Some(v) = self.current {
            self.character_index = self.character_index + char_width(v);
        }
        if self.next < self.characters.len() {
            self.current = Some(self.characters[self.next]);
            self.next = self.next + 1;
        } else {
            self.current = None;
        }
        self.current
    }

    /// The character the cursor is on.
    pub fn current_character(&self) -> (r: Option<char>)
        ensures
            r == self.cursor().current,
    {
        self.current
    }

    /// The character after the current one.
    pub fn peek(&self) -> (r: Option<char>)
        requires
            self.wf(),
        ensures
            r == peek(self.chars(), self.cursor()),
    {
        if self.next < self.characters.len() {
            Some(self.characters[self.next])
        } else {
            None
        }
    }

    /// Hands out the reusable buffer, emptied.
    pub fn borrow_string_storage(&mut self) -> (r: String)
        ensures
            r@ == Seq::<char>::empty(),
            final(self).storage() == Seq::<char>::empty(),
            final(self).chars() == old(self).chars(),
            final(self).cursor() == old(self).cursor(),
    {
        let mut taken = String::new();
        std::mem::swap(&mut taken, &mut self.string_storage);
        clear_text(&mut taken);
        taken
    }

    /// Takes the reusable buffer back.
    pub fn return_string_storage(&mut self, string: String)
        ensures
            final(self).storage() == string@,
            final(self).chars() == old(self).chars(),
            final(self).cursor() == old(self).cursor(),
    {
        self.string_storage = string;
    }

    /// Sets the cursor stale.
    fn set_stale(&mut self)
        ensures
            final(self).chars() == old(self).chars(),
            final(self).storage() == old(self).storage(),
            final(self).cursor() == (LexCursor { stale: true, ..old(self).cursor() }),
    {
        self.stale = true;
    }
}

/// A token's kind as the specifications see it: a float literal with its
/// fraction digits as a sequence, any other kind as it is.
pub enum KindView {
    Plain(TokenKind),
    Float { whole: i64, base: u32, fraction: Seq<u8> },
}

pub open spec fn kind_view(k: TokenKind) -> KindView {
    match k {
        TokenKind::Literal(Literal::Float { whole, base, fraction }) => KindView::Float { whole, base, fraction: fraction@ },
        _ => KindView::Plain(k),
    }
}

/// A token as the specifications see it.
pub struct TokenView {
    pub kind: KindView,
    pub range: SourceRange,
}

pub open spec fn token_view(t: Token) -> TokenView {
    TokenView { kind: kind_view(t.token_kind), range: t.source_range }
}

/// A letter of the English alphabet.
pub open spec fn is_letter(v: char) -> bool {
    ('a' <= v && v <= 'z') || ('A' <= v && v <= 'Z')
}

/// A character that can go on an identifier.
pub open spec fn is_ident_char(v: char) -> bool {
    is_letter(v) || v == '_' || ('0' <= v && v <= '9')
}

/// The identifier characters after the current one, taken while they
/// last; the cursor ends on the first character that is not one.
pub open spec fn ident_scan(cs: Seq<char>, c: LexCursor, acc: Seq<char>) -> (LexCursor, Seq<char>)
    decreases measure(cs, c),
{
    let a = advance(cs, c);
    match a.current {
        Some(v) => if is_ident_char(v) {
            proof {
                lemma_advance(cs, c);
            }
            ident_scan(cs, a, acc.push(v))
        } else {
            (a, acc)
        },
        None => (a, acc),
    }
}

/// The token a reserved word stands for.
pub open spec fn keyword_kind(s: Seq<char>) -> Option<TokenKind> {
    if s == "true"@ {
        Some(TokenKind::Literal(Literal::Bool(true)))
    } else if s == "false"@ {
        Some(TokenKind::Literal(Literal::Bool(false)))
    } else if s == "fn"@ {
        Some(TokenKind::Keyword(Keyword::Fn))
    } else if s == "struct"@ {
        Some(TokenKind::Keyword(Keyword::Struct))
    } else if s == "impl"@ {
        Some(TokenKind::Keyword(Keyword::Impl))
    } else if s == "using"@ {
        Some(TokenKind::Keyword(Keyword::Using))
    } else if s == "extern"@ {
        Some(TokenKind::Keyword(Keyword::Extern))
    } else if s == "if"@ {
        Some(TokenKind::Keyword(Keyword::If))
    } else if s == "else"@ {
        Some(TokenKind::Keyword(Keyword::Else))
    } else if s == "while"@ {
        Some(TokenKind::Keyword(Keyword::While))
    } else if s == "for"@ {
        Some(TokenKind::Keyword(Keyword::For))
    } else if s == "loop"@ {
        Some(TokenKind::Keyword(Keyword::Loop))
    } else if s == "continue"@ {
        Some(TokenKind::Keyword(Keyword::Continue))
    } else if s == "break"@ {
        Some(TokenKind::Keyword(Keyword::Break))
    } else if s == "return"@ {
        Some(TokenKind::Keyword(Keyword::Return))
    } else if s == "var"@ {
        Some(TokenKind::Keyword(Keyword::Var))
    } else if s == "as"@ {
        Some(TokenKind::Keyword(Keyword::As))
    } else if s == "const"@ {
        Some(TokenKind::Keyword(Keyword::Const))
    } else {
        None
    }
}

/// Distinct reserved words stand for distinct tokens: no two words are
/// read as the same keyword or literal.
pub proof fn law_keywords_distinct(s1: Seq<char>, s2: Seq<char>)
    ensures
        keyword_kind(s1) is Some && keyword_kind(s1) == keyword_kind(s2) ==> s1 == s2,
{
}

/// An identifier or reserved word that starts at the current character:
/// the cursor ends stale on the character after it, and an identifier's
/// text is interned.
pub open spec fn identifier(cs: Seq<char>, c: LexCursor, t: Seq<SymbolValue>) -> (LexCursor, TokenKind, Seq<SymbolValue>) {
    let (a, s) = ident_scan(cs, c, seq![c.current->0]);
    let a2 = LexCursor { stale: true, ..a };
    match keyword_kind(s) {
        Some(k) => (a2, k, t),
        None => {
            let (t2, i) = spec_intern(t, SymbolValue::Text(s));
            (a2, TokenKind::Identifier(SymbolIndex(i as usize)), t2)
        },
    }
}

fn keyword_exec(s: &str) -> (r: Option<TokenKind>)
    ensures
        r == keyword_kind(s@),
{
    if str_equal(s, "true") {
        Some(TokenKind::Literal(Literal::Bool(true)))
    } else if str_equal(s, "false") {
        Some(TokenKind::Literal(Literal::Bool(false)))
    } else if str_equal(s, "fn") {
        Some(TokenKind::Keyword(Keyword::Fn))
    } else if str_equal(s, "struct") {
        Some(TokenKind::Keyword(Keyword::Struct))
    } else if str_equal(s, "impl") {
        Some(TokenKind::Keyword(Keyword::Impl))
    } else if str_equal(s, "using") {
        Some(TokenKind::Keyword(Keyword::Using))
    } else if str_equal(s, "extern") {
        Some(TokenKind::Keyword(Keyword::Extern))
    } else if str_equal(s, "if") {
        Some(TokenKind::Keyword(Keyword::If))
    } else if str_equal(s, "else") {
        Some(TokenKind::Keyword(Keyword::Else))
    } else if str_equal(s, "while") {
        Some(TokenKind::Keyword(Keyword::While))
    } else if str_equal(s, "for") {
        Some(TokenKind::Keyword(Keyword::For))
    } else if str_equal(s, "loop") {
        Some(TokenKind::Keyword(Keyword::Loop))
    } else if str_equal(s, "continue") {
        Some(TokenKind::Keyword(Keyword::Continue))
    } else if str_equal(s, "break") {
        Some(TokenKind::Keyword(Keyword::Break))
    } else if str_equal(s, "return") {
        Some(TokenKind::Keyword(Keyword::Return))
    } else if str_equal(s, "var") {
        Some(TokenKind::Keyword(Keyword::Var))
    } else if str_equal(s, "as") {
        Some(TokenKind::Keyword(Keyword::As))
    } else if str_equal(s, "const") {
        Some(TokenKind::Keyword(Keyword::Const))
    } else {
        None
    }
}

impl Lexer {
    /// Reads an identifier or reserved word from the current character on.
    pub fn identifier(&mut self, table: &mut SymbolTable) -> (r: TokenKind)
        requires
            old(self).wf(),
            old(table).wf(),
            old(self).cursor().current is Some,
        ensures
            final(self).wf(),
            final(table).wf(),
            final(self).chars() == old(self).chars(),
            (final(self).cursor(), r, final(table)@) == identifier(old(self).chars(), old(self).cursor(), old(table)@),
            !old(self).cursor().stale ==> final(self).cursor().offset >= old(self).cursor().offset + 1,
    {
        let ghost cs = self.chars();
        let ghost c0 = self.cursor();
        let mut string = self.borrow_string_storage();
        let first = match self.current_character() {
            Some(v) => v,
            None => {
                assert(false);
                ' '
            },
        };
        push_char(&mut string, first);
        loop
            invariant_except_break
                ident_scan(cs, c0, seq![first]) == ident_scan(cs, self.cursor(), string@),
            invariant
                self.wf(),
                self.chars() == cs,
                c0 == old(self).cursor(),
                c0.current is Some,
                self.cursor() == c0 || (!c0.stale ==> self.cursor().offset >= c0.offset + 1),
                self.cursor() != c0 ==> self.cursor().offset >= c0.offset,
            ensures
                self.wf(),
                self.chars() == cs,
                ident_scan(cs, c0, seq![first]) == (self.cursor(), string@),
                !c0.stale ==> self.cursor().offset >= c0.offset + 1,
            decreases measure(cs, self.cursor()),
        {
            let ghost before = self.cursor();
            proof {
                lemma_advance(cs, before);
                lemma_advance_wf(cs, before);
            }
            match self.advance() {
                Some(v) => {
                    if is_ident_char_exec(v) {
                        push_char(&mut string, v);
                    } else {
                        break;
                    }
                },
                None => {
                    break;
                },
            }
        }
        self.set_stale();
        let k = keyword_exec(string.as_str());
        let r = match k {
            Some(k) => k,
            None => {
                let copy = string.clone();
                TokenKind::Identifier(table.add(copy))
            },
        };
        self.return_string_storage(string);
        r
    }
}

fn is_ident_char_exec(v: char) -> (r: bool)
    ensures
        r == is_ident_char(v),
{
    ('a' <= v && v <= 'z') || ('A' <= v && v <= 'Z') || v == '_' || ('0' <= v && v <= '9')
}

/// The value of a base-16 digit written with capitals.
pub open spec fn hex_value(c: char) -> Option<u8> {
    if '0' <= c && c <= '9' {
        Some((c as u32 - 48) as u8)
    } else if 'A' <= c && c <= 'F' {
        Some((c as u32 - 55) as u8)
    } else {
        None
    }
}

/// The value of a base-16 digit written with capitals.
pub fn map_to_hex(character: char) -> (r: Option<u8>)
    ensures
        r == hex_value(character),
{
    if '0' <= character && character <= '9' {
        Some((character as u32 - 48) as u8)
    } else if 'A' <= character && character <= 'F' {
        Some((character as u32 - 55) as u8)
    } else {
        None
    }
}

pub open spec fn digit_of(c: char) -> int {
    match hex_value(c) {
        Some(d) => d as int,
        None => 0,
    }
}

pub open spec fn pow(b: int, e: nat) -> int
    decreases e,
{
    if e == 0 { 1 } else { b * pow(b, (e - 1) as nat) }
}

/// Every character is a digit of `base`.
pub open spec fn digits_of_base(text: Seq<char>, base: nat) -> bool {
    forall|i: int| 0 <= i < text.len() ==> ((#[trigger] hex_value(text[i])) matches Some(d) && d < base)
}

/// The number `text` writes in `base`: its digits read from the first,
/// each step multiplying by the base and adding the next digit.
pub open spec fn number_value(text: Seq<char>, base: nat) -> nat
    decreases text.len(),
{
    if text.len() == 0 {
        0
    } else {
        (number_value(text.drop_last(), base) * base + digit_of(text.last())) as nat
    }
}

/// The number `text` writes in `base`, or the error for one too large,
/// which points from the text's start as the cursor counts characters to
/// the byte before the cursor.
pub open spec fn conversion(c: LexCursor, base: nat, text: Seq<char>) -> Result<i64, LexError> {
    if number_value(text, base) <= i64::MAX {
        Ok(number_value(text, base) as i64)
    } else {
        Err(LexError {
            kind: LexErrorKind::NumberTooLarge,
            range: SourceRange { start: (c.count - text.len() - 1) as usize, end: (c.offset - 1) as usize },
        })
    }
}

proof fn lemma_digit_bound(c: char, base: nat)
    requires
        hex_value(c) matches Some(d) && d < base,
    ensures
        0 <= digit_of(c) < base,
{
}

/// A prefix never writes a larger number than the whole text.
proof fn lemma_prefix_value(t: Seq<char>, base: nat, j: int)
    requires
        base >= 1,
        0 <= j <= t.len(),
    ensures
        number_value(t.take(j), base) <= number_value(t, base),
    decreases t.len(),
{
    if j < t.len() {
        let s = t.drop_last();
        assert(t.take(j) =~= s.take(j));
        lemma_prefix_value(s, base, j);
        let v = number_value(s, base);
        assert(v * base >= v) by (nonlinear_arith)
            requires
                v >= 0,
                base >= 1,
        ;
        assert(digit_of(t.last()) >= 0);
    } else {
        assert(t.take(j) =~= t);
    }
}

impl Lexer {
    /// The number `text` writes in `base`; too large where it does not fit
    /// in a signed 64-bit integer (leading zeros do not count against it).
    pub fn base_n_number_conversion(&self, base: u32, text: &Vec<char>) -> (r: Result<i64, LexError>)
        requires
            2 <= base <= 16,
            digits_of_base(text@, base as nat),
            text@.len() > 0 ==> self.cursor().count >= text@.len() + 1 && self.cursor().offset >= 1,
        ensures
            r == conversion(self.cursor(), base as nat, text@),
            r is Ok <==> number_value(text@, base as nat) <= i64::MAX,
    {
        let ghost t = text@;
        let n = text.len();
        let mut number: i64 = 0;
        let mut i: usize = 0;
        assert(t.take(0) =~= Seq::<char>::empty());
        while i < n
            invariant
                n == t.len(),
                t == text@,
                i <= n,
                2 <= base <= 16,
                digits_of_base(t, base as nat),
                number >= 0,
                number == number_value(t.take(i as int), base as nat),
                n > 0 ==> self.cursor().count >= n + 1 && self.cursor().offset >= 1,
            decreases n - i,
        {
            let value = text[i];
            let d = match map_to_hex(value) {
                Some(d) => d as i64,
                None => {
                    assert(hex_value(t[i as int]) is Some);
                    0
                },
            };
            assert(d == digit_of(t[i as int]));
            proof {
                lemma_digit_bound(t[i as int], base as nat);
                let p = t.take(i as int + 1);
                assert(p.drop_last() =~= t.take(i as int));
                assert(p.last() == t[i as int]);
            }
            let shifted = match number.checked_mul(base as i64) {
                Some(v) => v,
                None => {
                    proof {
                        assert(number_value(t.take(i as int + 1), base as nat) > i64::MAX);
                        lemma_prefix_value(t, base as nat, i as int + 1);
                    }
                    return Err(self.too_large(text));
                },
            };
            number = match shifted.checked_add(d) {
                Some(v) => v,
                None => {
                    proof {
                        assert(number_value(t.take(i as int + 1), base as nat) > i64::MAX);
                        lemma_prefix_value(t, base as nat, i as int + 1);
                    }
                    return Err(self.too_large(text));
                },
            };
            i = i + 1;
        }
        assert(t.take(n as int) =~= t);
        Ok(number)
    }

    /// The error for a number that does not fit.
    fn too_large(&self, text: &Vec<char>) -> (e: LexError)
        requires
            text@.len() > 0 ==> self.cursor().count >= text@.len() + 1 && self.cursor().offset >= 1,
            text@.len() > 0,
        ensures
            e == (LexError {
                kind: LexErrorKind::NumberTooLarge,
                range: SourceRange {
                    start: (self.cursor().count - text@.len() - 1) as usize,
                    end: (self.cursor().offset - 1) as usize,
                },
            }),
    {
        LexError {
            kind: LexErrorKind::NumberTooLarge,
            range: SourceRange::new(self.index - text.len() - 1, self.character_index - 1),
        }
    }
}

/// The characters of a number from the current one on: digits of the
/// base and points are kept, underscores skipped; the scan stops at any
/// other character or the end, and fails on a digit too big for the
/// base, with the cursor on that digit. Also counts the points.
pub open spec fn num_scan(cs: Seq<char>, c: LexCursor, base: u32, acc: Seq<char>, dots: nat)
    -> (LexCursor, Result<(Seq<char>, nat), LexError>)
    decreases measure(cs, c),
{
    match c.current {
        None => (c, Ok((acc, dots))),
        Some(v) => {
            proof {
                lemma_advance(cs, c);
            }
            match hex_value(v) {
                Some(n) => if base < n + 1 {
                    (c, Err(LexError {
                        kind: LexErrorKind::InvalidNumberForBase { value: v, base },
                        range: SourceRange { start: c.offset as usize, end: c.offset as usize },
                    }))
                } else {
                    num_scan(cs, advance(cs, c), base, acc.push(v), dots)
                },
                None => if v == '.' {
                    num_scan(cs, advance(cs, c), base, acc.push(v), dots + 1)
                } else if v == '_' {
                    num_scan(cs, advance(cs, c), base, acc, dots)
                } else {
                    (c, Ok((acc, dots)))
                },
            }
        },
    }
}

/// The text before the first point and the text after it.
pub open spec fn split_dot(s: Seq<char>) -> (Seq<char>, Seq<char>) {
    if exists|i: int| 0 <= i < s.len() && s[i] == '.' {
        let i = choose|i: int| 0 <= i < s.len() && s[i] == '.' && forall|j: int| 0 <= j < i ==> s[j] != '.';
        (s.take(i), s.skip(i + 1))
    } else {
        (s, Seq::empty())
    }
}

/// A number in `base` from the current character on: an integer, or a
/// float where a point is followed by digits; an error for a second
/// point (pointing from the number's start to the byte before the
/// cursor), a digit too big for the base, or a number too large.
pub open spec fn base_n_number(cs: Seq<char>, c: LexCursor, base: u32) -> (LexCursor, Result<KindView, LexError>) {
    let start = c.offset;
    let (c2, r) = num_scan(cs, c, base, Seq::empty(), 0);
    match r {
        Err(e) => (c2, Err(e)),
        Ok((s, dots)) => if dots > 1 {
            (c2, Err(LexError {
                kind: LexErrorKind::TooManyDots,
                range: SourceRange { start: start as usize, end: (c2.offset - 1) as usize },
            }))
        } else {
            let (full, decimals) = split_dot(s);
            match conversion(c2, base as nat, full) {
                Err(e) => (c2, Err(e)),
                Ok(n) => if decimals.len() > 0 {
                    (c2, Ok(KindView::Float { whole: n, base, fraction: decimals.map_values(|ch: char| digit_of(ch) as u8) }))
                } else {
                    (c2, Ok(KindView::Plain(TokenKind::Literal(Literal::Integer(n)))))
                },
            }
        },
    }
}

/// A number from the current digit on: `0b`, `0o` and `0x` choose base
/// 2, 8 and 16, anything else base 10.
pub open spec fn number(cs: Seq<char>, c: LexCursor) -> (LexCursor, Result<KindView, LexError>) {
    if c.current == Some('0') {
        match peek(cs, c) {
            Some('b') => base_n_number(cs, advance(cs, advance(cs, c)), 2),
            Some('o') => base_n_number(cs, advance(cs, advance(cs, c)), 8),
            Some('x') => base_n_number(cs, advance(cs, advance(cs, c)), 16),
            _ => base_n_number(cs, c, 10),
        }
    } else {
        base_n_number(cs, c, 10)
    }
}

/// The view of a literal's result.
pub open spec fn literal_result(r: Result<Literal, LexError>) -> Result<KindView, LexError> {
    match r {
        Ok(l) => Ok(kind_view(TokenKind::Literal(l))),
        Err(e) => Err(e),
    }
}

impl Lexer {
    /// Reads a number in `base` from the current character on.
    pub fn base_n_number(&mut self, base: u32) -> (r: Result<Literal, LexError>)
        requires
            old(self).wf(),
            !old(self).cursor().stale,
            2 <= base <= 16,
            old(self).cursor().count >= 1,
        ensures
            final(self).wf(),
            final(self).chars() == old(self).chars(),
            (final(self).cursor(), literal_result(r)) == base_n_number(old(self).chars(), old(self).cursor(), base),
            !final(self).cursor().stale,
            measure(final(self).chars(), final(self).cursor()) <= measure(old(self).chars(), old(self).cursor()),
            final(self).cursor().offset >= old(self).cursor().offset,
            (old(self).cursor().current matches Some(d) && hex_value(d) matches Some(h) && h < base)
                ==> measure(final(self).chars(), final(self).cursor()) < measure(old(self).chars(), old(self).cursor())
                    && final(self).cursor().offset >= old(self).cursor().offset + 1,
    {
        let ghost cs = self.chars();
        let ghost c0 = self.cursor();
        let start = self.character_index;
        let mut digits: Vec<char> = Vec::new();
        let mut dot_count: usize = 0;
        let mut dot_at: Option<usize> = None;
        loop
            invariant_except_break
                num_scan(cs, c0, base, Seq::empty(), 0) == num_scan(cs, self.cursor(), base, digits@, dot_count as nat),
            invariant
                self.wf(),
                self.chars() == cs,
                cs == old(self).chars(),
                c0 == old(self).cursor(),
                !self.cursor().stale,
                2 <= base <= 16,
                c0.count >= 1,
                start == c0.offset,
                self.cursor().offset >= c0.offset + digits@.len(),
                self.cursor().count >= c0.count + digits@.len() || self.cursor().count == usize::MAX,
                measure(cs, self.cursor()) + digits@.len() <= measure(cs, c0),
                (c0.current matches Some(d) && hex_value(d) matches Some(h) && h < base) && self.cursor() != c0
                    ==> measure(cs, self.cursor()) < measure(cs, c0),
                (c0.current matches Some(d) && hex_value(d) matches Some(h) && h < base)
                    ==> (self.cursor() == c0 && digits@.len() == 0) || digits@.len() >= 1,
                forall|i: int| 0 <= i < digits@.len() ==> (#[trigger] digits@[i] == '.' || (hex_value(digits@[i]) matches Some(h) && h < base)),
                dot_count <= digits@.len(),
                match dot_at {
                    None => dot_count == 0 && forall|i: int| 0 <= i < digits@.len() ==> digits@[i] != '.',
                    Some(p) => {
                        &&& dot_count >= 1
                        &&& p < digits@.len()
                        &&& digits@[p as int] == '.'
                        &&& forall|i: int| 0 <= i < p ==> digits@[i] != '.'
                        &&& dot_count == 1 ==> forall|i: int| p < i < digits@.len() ==> digits@[i] != '.'
                    },
                },
            ensures
                self.wf(),
                self.chars() == cs,
                !self.cursor().stale,
                num_scan(cs, c0, base, Seq::empty(), 0) == (self.cursor(), Ok::<(Seq<char>, nat), LexError>((digits@, dot_count as nat))),
                self.cursor().offset >= c0.offset + digits@.len(),
                self.cursor().count >= c0.count + digits@.len() || self.cursor().count == usize::MAX,
                measure(cs, self.cursor()) + digits@.len() <= measure(cs, c0),
                (c0.current matches Some(d) && hex_value(d) matches Some(h) && h < base)
                    ==> measure(cs, self.cursor()) < measure(cs, c0) && digits@.len() >= 1,
                forall|i: int| 0 <= i < digits@.len() ==> (#[trigger] digits@[i] == '.' || (hex_value(digits@[i]) matches Some(h) && h < base)),
                match dot_at {
                    None => dot_count == 0 && forall|i: int| 0 <= i < digits@.len() ==> digits@[i] != '.',
                    Some(p) => {
                        &&& dot_count >= 1
                        &&& p < digits@.len()
                        &&& digits@[p as int] == '.'
                        &&& forall|i: int| 0 <= i < p ==> digits@[i] != '.'
                        &&& dot_count == 1 ==> forall|i: int| p < i < digits@.len() ==> digits@[i] != '.'
                    },
                },
            decreases measure(cs, self.cursor()),
        {
            let ghost before = self.cursor();
            let value = match self.current_character() {
                Some(v) => v,
                None => {
                    break;
                },
            };
            proof {
                lemma_advance(cs, before);
                lemma_advance_wf(cs, before);
            }
            match map_to_hex(value) {
                Some(n) => {
                    if base < n as u32 + 1 {
                        return Err(LexError {
                            kind: LexErrorKind::InvalidNumberForBase { value, base },
                            range: SourceRange::new(self.character_index, self.character_index),
                        });
                    }
                },
                None => {
                    if value == '.' {
                        if dot_count == 0 {
                            dot_at = Some(digits.len());
                        }
                        dot_count = dot_count + 1;
                    } else if value == '_' {
                        self.advance();
                        continue;
                    } else {
                        break;
                    }
                },
            }
            digits.push(value);
            self.advance();
        }
        let end = self.character_index;
        if dot_count > 1 {
            return Err(LexError {
                kind: LexErrorKind::TooManyDots,
                range: SourceRange::new(start, end - 1),
            });
        }
        let ghost s = digits@;
        proof {
            match dot_at {
                Some(p) => {
                    assert(exists|i: int| 0 <= i < s.len() && s[i] == '.');
                    let q = choose|i: int| 0 <= i < s.len() && s[i] == '.' && forall|j: int| 0 <= j < i ==> s[j] != '.';
                    assert(q == p);
                },
                None => {},
            }
        }
        let (full, decimals) = split_digits(&digits, dot_at);
        assert(split_dot(s) == (full@, decimals@));
        proof {
            assert forall|i: int| 0 <= i < full@.len() implies (#[trigger] hex_value(full@[i])) matches Some(d) && d < base by {
                assert(full@[i] == s[i]);
            }
        }
        let number = self.base_n_number_conversion(base, &full)?;
        if decimals.len() > 0 {
            let mut fraction: Vec<u8> = Vec::new();
            let mut k: usize = 0;
            while k < decimals.len()
                invariant
                    k <= decimals@.len(),
                    fraction@ == decimals@.take(k as int).map_values(|ch: char| digit_of(ch) as u8),
                    forall|i: int| 0 <= i < decimals@.len() ==> hex_value(#[trigger] decimals@[i]) is Some,
                decreases decimals@.len() - k,
            {
                let d = match map_to_hex(decimals[k]) {
                    Some(d) => d,
                    None => 0,
                };
                fraction.push(d);
                k = k + 1;
                assert(fraction@ =~= decimals@.take(k as int).map_values(|ch: char| digit_of(ch) as u8));
            }
            assert(decimals@.take(decimals@.len() as int) =~= decimals@);
            Ok(Literal::Float { whole: number, base, fraction })
        } else {
            Ok(Literal::Integer(number))
        }
    }
}

/// The digits before the point at `dot_at` and those after it; all of
/// them where there is no point.
fn split_digits(digits: &Vec<char>, dot_at: Option<usize>) -> (r: (Vec<char>, Vec<char>))
    requires
        dot_at matches Some(p) ==> p < digits@.len(),
    ensures
        match dot_at {
            Some(p) => r.0@ == digits@.take(p as int) && r.1@ == digits@.skip(p + 1),
            None => r.0@ == digits@ && r.1@ == Seq::<char>::empty(),
        },
{
    let split = match dot_at {
        Some(p) => p,
        None => digits.len(),
    };
    let mut full: Vec<char> = Vec::new();
    let mut decimals: Vec<char> = Vec::new();
    let mut k: usize = 0;
    while k < digits.len()
        invariant
            k <= digits@.len(),
            split <= digits@.len(),
            dot_at matches Some(p) ==> split == p,
            dot_at is None ==> split == digits@.len(),
            full@ == digits@.take(if k < split { k as int } else { split as int }),
            decimals@ == if k <= split + 1 { Seq::<char>::empty() } else { digits@.subrange(split + 1, k as int) },
        decreases digits@.len() - k,
    {
        if k < split {
            full.push(digits[k]);
            assert(full@ =~= digits@.take(k + 1));
        } else if k > split {
            decimals.push(digits[k]);
            assert(decimals@ =~= digits@.subrange(split + 1, k + 1));
        }
        k = k + 1;
    }
    assert(full@ =~= if dot_at is None { digits@ } else { digits@.take(split as int) });
    assert(dot_at is Some ==> decimals@ =~= digits@.skip(split + 1));
    (full, decimals)
}

impl Lexer {
    /// Reads a number from the current digit on.
    pub fn number(&mut self) -> (r: Result<Literal, LexError>)
        requires
            old(self).wf(),
            !old(self).cursor().stale,
            old(self).cursor().count >= 1,
            old(self).cursor().current matches Some(d) && '0' <= d && d <= '9',
        ensures
            final(self).wf(),
            final(self).chars() == old(self).chars(),
            (final(self).cursor(), literal_result(r)) == number(old(self).chars(), old(self).cursor()),
            !final(self).cursor().stale,
            measure(final(self).chars(), final(self).cursor()) < measure(old(self).chars(), old(self).cursor()),
            final(self).cursor().offset >= old(self).cursor().offset + 1,
    {
        let ghost cs = self.chars();
        let ghost c0 = self.cursor();
        let first = match self.current_character() {
            Some(v) => v,
            None => ' ',
        };
        if first == '0' {
            let p = self.peek();
            let base: u32 = match p {
                Some('b') => 2,
                Some('o') => 8,
                Some('x') => 16,
                _ => 10,
            };
            if base != 10 {
                proof {
                    lemma_advance(cs, c0);
                    lemma_advance_wf(cs, c0);
                    lemma_advance(cs, advance(cs, c0));
                    lemma_advance_wf(cs, advance(cs, c0));
                }
                self.advance();
                self.advance();
                return self.base_n_number(base);
            }
        }
        self.base_n_number(10)
    }
}

/// A base-16 digit written with capitals.
pub open spec fn is_upper_hex(v: char) -> bool {
    ('0' <= v && v <= '9') || ('A' <= v && v <= 'F')
}

/// The digits of a unicode escape after its `{`: taken up to a `}` or
/// the end; any other character is an error pointing at it.
pub open spec fn hex_scan(cs: Seq<char>, c: LexCursor, acc: Seq<char>) -> (LexCursor, Result<Seq<char>, LexError>)
    decreases measure(cs, c),
{
    let a = advance(cs, c);
    match a.current {
        None => (a, Ok(acc)),
        Some(v) => if v == '}' {
            (a, Ok(acc))
        } else if is_upper_hex(v) {
            proof {
                lemma_advance(cs, c);
            }
            hex_scan(cs, a, acc.push(v))
        } else {
            (a, Err(LexError {
                kind: LexErrorKind::InvalidUnicodeValue,
                range: SourceRange { start: a.offset as usize, end: a.offset as usize },
            }))
        },
    }
}

/// A unicode escape after its `\u`: `{`, base-16 digits and `}`, naming
/// a character. Without the `{` the cursor is left stale on what came
/// instead.
pub open spec fn unicode_escape(cs: Seq<char>, c: LexCursor) -> (LexCursor, Result<char, LexError>) {
    let a = advance(cs, c);
    if a.current != Some('{') {
        (LexCursor { stale: true, ..a }, Err(LexError {
            kind: LexErrorKind::CorruptUnicodeEscape,
            range: SourceRange { start: a.offset as usize, end: a.offset as usize },
        }))
    } else {
        let start = a.offset;
        let (b, r) = hex_scan(cs, a, Seq::empty());
        match r {
            Err(e) => (b, Err(e)),
            Ok(digits) => match conversion(b, 16, digits) {
                Err(e) => (b, Err(e)),
                Ok(n) => match scalar(n as u32) {
                    Some(ch) => (b, Ok(ch)),
                    None => (b, Err(LexError {
                        kind: LexErrorKind::InvalidUnicodeCharacter,
                        range: SourceRange { start: start as usize, end: b.offset as usize },
                    })),
                },
            },
        }
    }
}

proof fn lemma_hex_scan(cs: Seq<char>, c: LexCursor, acc: Seq<char>)
    requires
        cursor_wf(cs, c),
    ensures
        cursor_wf(cs, hex_scan(cs, c, acc).0),
        measure(cs, hex_scan(cs, c, acc).0) <= measure(cs, c),
        c.current is Some || c.stale ==> measure(cs, hex_scan(cs, c, acc).0) < measure(cs, c),
        !hex_scan(cs, c, acc).0.stale,
    decreases measure(cs, c),
{
    lemma_advance(cs, c);
    lemma_advance_wf(cs, c);
    let a = advance(cs, c);
    if let Some(v) = a.current {
        if v != '}' && is_upper_hex(v) {
            lemma_hex_scan(cs, a, acc.push(v));
        }
    }
}

/// A unicode escape leaves no more work than there was before its `u`.
pub proof fn lemma_unicode_escape(cs: Seq<char>, c: LexCursor)
    requires
        cursor_wf(cs, c),
        c.current is Some,
        !c.stale,
    ensures
        cursor_wf(cs, unicode_escape(cs, c).0),
        measure(cs, unicode_escape(cs, c).0) < measure(cs, c) || (unicode_escape(cs, c).0.stale
            && measure(cs, unicode_escape(cs, c).0) <= measure(cs, c)),
        measure(cs, unicode_escape(cs, c).0) <= measure(cs, c),
{
    lemma_advance(cs, c);
    lemma_advance_wf(cs, c);
    let a = advance(cs, c);
    if a.current == Some('{') {
        lemma_hex_scan(cs, a, Seq::empty());
    }
}

impl Lexer {
    /// Reads a unicode escape after its `u`.
    pub fn unicode_escape_character(&mut self) -> (r: Result<char, LexError>)
        requires
            old(self).wf(),
            old(self).cursor().current is Some,
            !old(self).cursor().stale,
        ensures
            final(self).wf(),
            final(self).chars() == old(self).chars(),
            (final(self).cursor(), r) == unicode_escape(old(self).chars(), old(self).cursor()),
    {
        let ghost cs = self.chars();
        let ghost c0 = self.cursor();
        proof {
            lemma_advance_wf(cs, c0);
        }
        let opened = self.advance();
        if !is_char(opened, '{') {
            let e = LexError {
                kind: LexErrorKind::CorruptUnicodeEscape,
                range: SourceRange::new(self.character_index, self.character_index),
            };
            self.set_stale();
            return Err(e);
        }
        let ghost a = self.cursor();
        let start = self.character_index;
        let mut unicode: Vec<char> = Vec::new();
        loop
            invariant_except_break
                hex_scan(cs, a, Seq::empty()) == hex_scan(cs, self.cursor(), unicode@),
            invariant
                self.wf(),
                self.chars() == cs,
                cs == old(self).chars(),
                a == advance(cs, old(self).cursor()),
                a.current == Some('{'),
                !a.stale,
                start == a.offset,
                a.offset >= 1,
                self.cursor().offset >= a.offset,
                self.cursor().count >= a.count + unicode@.len() || self.cursor().count == usize::MAX,
                self.cursor().next >= a.next + unicode@.len(),
                !self.cursor().stale,
                a.count >= 1,
                forall|i: int| 0 <= i < unicode@.len() ==> ((#[trigger] hex_value(unicode@[i])) matches Some(d) && d < 16),
            ensures
                self.wf(),
                self.chars() == cs,
                hex_scan(cs, a, Seq::empty()) == (self.cursor(), Ok::<Seq<char>, LexError>(unicode@)),
                self.cursor().offset >= 1,
                self.cursor().count >= unicode@.len() + 1,
                forall|i: int| 0 <= i < unicode@.len() ==> ((#[trigger] hex_value(unicode@[i])) matches Some(d) && d < 16),
            decreases measure(cs, self.cursor()),
        {
            let ghost before = self.cursor();
            proof {
                lemma_advance(cs, before);
                lemma_advance_wf(cs, before);
            }
            match self.advance() {
                Some(v) => {
                    if v == '}' {
                        break;
                    } else if ('0' <= v && v <= '9') || ('A' <= v && v <= 'F') {
                        unicode.push(v);
                    } else {
                        return Err(LexError {
                            kind: LexErrorKind::InvalidUnicodeValue,
                            range: SourceRange::new(self.character_index, self.character_index),
                        });
                    }
                },
                None => {
                    break;
                },
            }
        }
        let number = self.base_n_number_conversion(16, &unicode)?;
        match char_from_u32(number as u32) {
            Some(value) => Ok(value),
            None => Err(LexError {
                kind: LexErrorKind::InvalidUnicodeCharacter,
                range: SourceRange::new(start, self.character_index),
            }),
        }
    }
}

pub proof fn lemma_hex_scan_measure(cs: Seq<char>, c: LexCursor, acc: Seq<char>)
    ensures
        measure(cs, hex_scan(cs, c, acc).0) <= measure(cs, c),
        c.current is Some || c.stale ==> measure(cs, hex_scan(cs, c, acc).0) < measure(cs, c),
    decreases measure(cs, c),
{
    lemma_advance(cs, c);
    let a = advance(cs, c);
    if let Some(v) = a.current {
        if v != '}' && is_upper_hex(v) {
            lemma_hex_scan_measure(cs, a, acc.push(v));
        }
    }
}

/// A unicode escape after a `u` leaves no more work than before it.
pub proof fn lemma_unicode_escape_measure(cs: Seq<char>, c: LexCursor)
    requires
        c.current is Some,
        !c.stale,
    ensures
        measure(cs, unicode_escape(cs, c).0) <= measure(cs, c),
{
    lemma_advance(cs, c);
    let a = advance(cs, c);
    if a.current == Some('{') {
        lemma_hex_scan_measure(cs, a, Seq::empty());
    }
}

/// The text of a string literal after its opening quote, up to the
/// closing quote or the end, with its escapes read; the errors of the
/// unicode escapes are collected and the scan goes on.
pub open spec fn string_scan(cs: Seq<char>, c: LexCursor, acc: Seq<char>, errors: Seq<LexError>, esc: bool)
    -> (LexCursor, Seq<char>, Seq<LexError>)
    decreases measure(cs, c),
{
    let a = advance(cs, c);
    match a.current {
        None => (a, acc, errors),
        Some(v) => {
            proof {
                lemma_advance(cs, c);
            }
            if esc {
                if v == 'n' {
                    string_scan(cs, a, acc.push('\n'), errors, false)
                } else if v == 'r' {
                    string_scan(cs, a, acc.push('\r'), errors, false)
                } else if v == 't' {
                    string_scan(cs, a, acc.push('\t'), errors, false)
                } else if v == '\\' {
                    string_scan(cs, a, acc.push('\\'), errors, false)
                } else if v == '0' {
                    string_scan(cs, a, acc.push('\0'), errors, false)
                } else if v == '"' {
                    string_scan(cs, a, acc.push('"'), errors, false)
                } else if v == 'u' {
                    proof {
                        lemma_unicode_escape_measure(cs, a);
                    }
                    let (b, r) = unicode_escape(cs, a);
                    match r {
                        Ok(ch) => string_scan(cs, b, acc.push(ch), errors, false),
                        Err(e) => string_scan(cs, b, acc, errors.push(e), false),
                    }
                } else {
                    string_scan(cs, a, acc.push(v), errors, false)
                }
            } else if v == '\\' {
                string_scan(cs, a, acc, errors, true)
            } else if v == '"' {
                (a, acc, errors)
            } else {
                string_scan(cs, a, acc.push(v), errors, false)
            }
        },
    }
}

/// A string literal after its opening quote: its text is interned where
/// no error came up; a string the text ends in is an error pointing from
/// the opening quote's offset to the cursor.
pub open spec fn string(cs: Seq<char>, c: LexCursor, t: Seq<SymbolValue>) -> (LexCursor, Result<Literal, Seq<LexError>>, Seq<SymbolValue>) {
    let start = c.offset;
    let (b, s, errs) = string_scan(cs, c, Seq::empty(), Seq::empty(), false);
    let errs2 = if b.current != Some('"') {
        errs.push(LexError {
            kind: LexErrorKind::UnterminatedString,
            range: SourceRange { start: start as usize, end: b.offset as usize },
        })
    } else {
        errs
    };
    if errs2.len() == 0 {
        let (t2, i) = spec_intern(t, SymbolValue::Text(s));
        (b, Ok(Literal::String(SymbolIndex(i as usize))), t2)
    } else {
        (b, Err(errs2), t)
    }
}

pub open spec fn errors_result(r: Result<Literal, Vec<LexError>>) -> Result<Literal, Seq<LexError>> {
    match r {
        Ok(l) => Ok(l),
        Err(v) => Err(v@),
    }
}

proof fn lemma_string_scan(cs: Seq<char>, c: LexCursor, acc: Seq<char>, errors: Seq<LexError>, esc: bool)
    requires
        cursor_wf(cs, c),
    ensures
        cursor_wf(cs, string_scan(cs, c, acc, errors, esc).0),
        measure(cs, string_scan(cs, c, acc, errors, esc).0) <= measure(cs, c),
    decreases measure(cs, c),
{
    lemma_advance(cs, c);
    lemma_advance_wf(cs, c);
    let a = advance(cs, c);
    if let Some(v) = a.current {
        if esc && v == 'u' {
            lemma_unicode_escape(cs, a);
            lemma_unicode_escape_measure(cs, a);
            let (b, r) = unicode_escape(cs, a);
            match r {
                Ok(ch) => lemma_string_scan(cs, b, acc.push(ch), errors, false),
                Err(e) => lemma_string_scan(cs, b, acc, errors.push(e), false),
            }
        } else if esc {
            let ch = if v == 'n' { '\n' } else if v == 'r' { '\r' } else if v == 't' { '\t' } else if v == '\\' { '\\' }
                else if v == '0' { '\0' } else if v == '"' { '"' } else { v };
            lemma_string_scan(cs, a, acc.push(ch), errors, false);
        } else if v == '\\' {
            lemma_string_scan(cs, a, acc, errors, true);
        } else if v != '"' {
            lemma_string_scan(cs, a, acc.push(v), errors, false);
        }
    }
}

impl Lexer {
    /// Reads a string literal after its opening quote.
    pub fn string(&mut self, table: &mut SymbolTable) -> (r: Result<Literal, Vec<LexError>>)
        requires
            old(self).wf(),
            old(table).wf(),
        ensures
            final(self).wf(),
            final(table).wf(),
            final(self).chars() == old(self).chars(),
            (final(self).cursor(), errors_result(r), final(table)@) == string(old(self).chars(), old(self).cursor(), old(table)@),
            measure(final(self).chars(), final(self).cursor()) <= measure(old(self).chars(), old(self).cursor()),
            !final(self).cursor().stale,
    {
        let ghost cs = self.chars();
        let ghost c0 = self.cursor();
        let mut string = String::new();
        let start = self.character_index;
        let mut errors: Vec<LexError> = Vec::new();
        let mut is_in_escape = false;
        proof {
            lemma_string_scan(cs, c0, Seq::empty(), Seq::empty(), false);
        }
        loop
            invariant_except_break
                string_scan(cs, c0, Seq::empty(), Seq::empty(), false)
                    == string_scan(cs, self.cursor(), string@, errors@, is_in_escape),
            invariant
                self.wf(),
                self.chars() == cs,
                cs == old(self).chars(),
                c0 == old(self).cursor(),
                measure(cs, self.cursor()) <= measure(cs, c0),
            ensures
                self.wf(),
                self.chars() == cs,
                string_scan(cs, c0, Seq::empty(), Seq::empty(), false) == (self.cursor(), string@, errors@),
                measure(cs, self.cursor()) <= measure(cs, c0),
                !self.cursor().stale,
            decreases measure(cs, self.cursor()),
        {
            let ghost before = self.cursor();
            proof {
                lemma_advance(cs, before);
                lemma_advance_wf(cs, before);
            }
            let value = match self.advance() {
                Some(v) => v,
                None => {
                    break;
                },
            };
            if is_in_escape {
                if value == 'n' {
                    push_char(&mut string, '\n');
                } else if value == 'r' {
                    push_char(&mut string, '\r');
                } else if value == 't' {
                    push_char(&mut string, '\t');
                } else if value == '\\' {
                    push_char(&mut string, '\\');
                } else if value == '0' {
                    push_char(&mut string, '\0');
                } else if value == '"' {
                    push_char(&mut string, '"');
                } else if value == 'u' {
                    let ghost a = self.cursor();
                    proof {
                        lemma_unicode_escape(cs, a);
                        lemma_unicode_escape_measure(cs, a);
                    }
                    match self.unicode_escape_character() {
                        Ok(val) => push_char(&mut string, val),
                        Err(err) => errors.push(err),
                    }
                } else {
                    push_char(&mut string, value);
                }
                is_in_escape = false;
                continue;
            }
            if value == '\\' {
                is_in_escape = true;
            } else if value == '"' {
                break;
            } else {
                push_char(&mut string, value);
            }
        }
        if !is_char(self.current_character(), '"') {
            errors.push(LexError {
                kind: LexErrorKind::UnterminatedString,
                range: SourceRange::new(start, self.character_index),
            });
        }
        if errors.len() == 0 {
            let index = table.add(string);
            return Ok(Literal::String(index));
        }
        Err(errors)
    }
}

pub proof fn lemma_ident_scan_measure(cs: Seq<char>, c: LexCursor, acc: Seq<char>)
    ensures
        measure(cs, ident_scan(cs, c, acc).0) <= measure(cs, c),
        c.current is Some || c.stale ==> measure(cs, ident_scan(cs, c, acc).0) < measure(cs, c),
        !ident_scan(cs, c, acc).0.stale,
    decreases measure(cs, c),
{
    lemma_advance(cs, c);
    let a = advance(cs, c);
    if let Some(v) = a.current {
        if is_ident_char(v) {
            lemma_ident_scan_measure(cs, a, acc.push(v));
        }
    }
}

pub proof fn lemma_num_scan_measure(cs: Seq<char>, c: LexCursor, base: u32, acc: Seq<char>, dots: nat)
    ensures
        measure(cs, num_scan(cs, c, base, acc, dots).0) <= measure(cs, c),
        num_scan(cs, c, base, acc, dots).0.stale == c.stale || !num_scan(cs, c, base, acc, dots).0.stale,
        (c.current matches Some(d) && hex_value(d) matches Some(h) && h < base)
            ==> measure(cs, num_scan(cs, c, base, acc, dots).0) < measure(cs, c),
    decreases measure(cs, c),
{
    if let Some(v) = c.current {
        lemma_advance(cs, c);
        let a = advance(cs, c);
        match hex_value(v) {
            Some(n) => if !(base < n + 1) {
                lemma_num_scan_measure(cs, a, base, acc.push(v), dots);
            },
            None => if v == '.' {
                lemma_num_scan_measure(cs, a, base, acc.push(v), dots + 1);
            } else if v == '_' {
                lemma_num_scan_measure(cs, a, base, acc, dots);
            },
        }
    }
}

/// A number leaves less work than there was, and a cursor that is not
/// stale.
pub proof fn lemma_number_measure(cs: Seq<char>, c: LexCursor)
    requires
        c.current matches Some(d) && '0' <= d && d <= '9',
        !c.stale,
    ensures
        measure(cs, number(cs, c).0) < measure(cs, c),
        !number(cs, c).0.stale,
{
    lemma_advance(cs, c);
    lemma_advance(cs, advance(cs, c));
    let a2 = advance(cs, advance(cs, c));
    lemma_num_scan_measure(cs, a2, 2, Seq::empty(), 0);
    lemma_num_scan_measure(cs, a2, 8, Seq::empty(), 0);
    lemma_num_scan_measure(cs, a2, 16, Seq::empty(), 0);
    lemma_num_scan_measure(cs, c, 10, Seq::empty(), 0);
    if c.current == Some('0') {
        if peek(cs, c) matches Some(p) && (p == 'b' || p == 'o' || p == 'x') {
            assert(measure(cs, a2) < measure(cs, c));
        }
    }
}

pub proof fn lemma_string_scan_measure(cs: Seq<char>, c: LexCursor, acc: Seq<char>, errors: Seq<LexError>, esc: bool)
    ensures
        measure(cs, string_scan(cs, c, acc, errors, esc).0) <= measure(cs, c),
    decreases measure(cs, c),
{
    lemma_advance(cs, c);
    let a = advance(cs, c);
    if let Some(v) = a.current {
        if esc && v == 'u' {
            lemma_unicode_escape_measure(cs, a);
            let (b, r) = unicode_escape(cs, a);
            match r {
                Ok(ch) => lemma_string_scan_measure(cs, b, acc.push(ch), errors, false),
                Err(e) => lemma_string_scan_measure(cs, b, acc, errors.push(e), false),
            }
        } else if esc {
            let ch = if v == 'n' { '\n' } else if v == 'r' { '\r' } else if v == 't' { '\t' } else if v == '\\' { '\\' }
                else if v == '0' { '\0' } else if v == '"' { '"' } else { v };
            lemma_string_scan_measure(cs, a, acc.push(ch), errors, false);
        } else if v == '\\' {
            lemma_string_scan_measure(cs, a, acc, errors, true);
        } else if v != '"' {
            lemma_string_scan_measure(cs, a, acc.push(v), errors, false);
        }
    }
}

/// A line comment from its first slash: the cursor moves on to the line's
/// end, staying on the newline.
pub open spec fn skip_comment(cs: Seq<char>, c: LexCursor) -> LexCursor
    decreases measure(cs, c),
{
    match c.current {
        None => c,
        Some(v) => if v == '\n' {
            c
        } else {
            proof {
                lemma_advance(cs, c);
            }
            skip_comment(cs, advance(cs, c))
        },
    }
}

pub proof fn lemma_skip_comment(cs: Seq<char>, c: LexCursor)
    ensures
        measure(cs, skip_comment(cs, c)) <= measure(cs, c),
        (!c.stale ==> !skip_comment(cs, c).stale),
        cursor_wf(cs, c) ==> cursor_wf(cs, skip_comment(cs, c)),
    decreases measure(cs, c),
{
    if let Some(v) = c.current {
        if v != '\n' {
            lemma_advance(cs, c);
            if cursor_wf(cs, c) {
                lemma_advance_wf(cs, c);
            }
            lemma_skip_comment(cs, advance(cs, c));
        }
    }
}

/// What one token start leads to: a token, nothing (space, a newline or
/// a comment), or errors.
pub enum LexStep {
    Emit(KindView),
    Skip,
    Errors(Seq<LexError>),
}

/// `yes` where the next character is `m`, taking it; `no` otherwise.
pub open spec fn next_matches(cs: Seq<char>, a: LexCursor, m: char, yes: TokenKind, no: TokenKind) -> (LexCursor, LexStep) {
    if peek(cs, a) == Some(m) {
        (advance(cs, a), LexStep::Emit(KindView::Plain(yes)))
    } else {
        (a, LexStep::Emit(KindView::Plain(no)))
    }
}

/// The token that starts at the cursor's character `v`.
pub open spec fn lex_token(cs: Seq<char>, a: LexCursor, t: Seq<SymbolValue>) -> (LexCursor, LexStep, Seq<SymbolValue>) {
    let v = a.current->0;
    let plain = |k: TokenKind| (a, LexStep::Emit(KindView::Plain(k)), t);
    if '0' <= v && v <= '9' {
        let (c2, r) = number(cs, a);
        let c3 = LexCursor { stale: true, ..c2 };
        match r {
            Ok(k) => (c3, LexStep::Emit(k), t),
            Err(e) => (c3, LexStep::Errors(seq![e]), t),
        }
    } else if v == '\n' || v == ' ' {
        (a, LexStep::Skip, t)
    } else if v == '"' {
        let (b, r, t2) = string(cs, a, t);
        match r {
            Ok(l) => (b, LexStep::Emit(KindView::Plain(TokenKind::Literal(l))), t2),
            Err(es) => (b, LexStep::Errors(es), t2),
        }
    } else if v == '/' {
        if peek(cs, a) == Some('/') {
            (skip_comment(cs, a), LexStep::Skip, t)
        } else if peek(cs, a) == Some('=') {
            (advance(cs, a), LexStep::Emit(KindView::Plain(TokenKind::DivEquals)), t)
        } else {
            plain(TokenKind::Slash)
        }
    } else if is_letter(v) || (v == '_' && (peek(cs, a) matches Some(p) && is_ident_char(p))) {
        let (c2, k, t2) = identifier(cs, a, t);
        (c2, LexStep::Emit(KindView::Plain(k)), t2)
    } else if v == '(' {
        plain(TokenKind::LeftParenthesis)
    } else if v == ')' {
        plain(TokenKind::RightParenthesis)
    } else if v == '<' {
        let (c2, st) = next_matches(cs, a, '=', TokenKind::LesserEquals, TokenKind::LeftAngle);
        (c2, st, t)
    } else if v == '>' {
        let (c2, st) = next_matches(cs, a, '=', TokenKind::GreaterEquals, TokenKind::RightAngle);
        (c2, st, t)
    } else if v == '&' && peek(cs, a) == Some('&') {
        (advance(cs, a), LexStep::Emit(KindView::Plain(TokenKind::LogicalAnd)), t)
    } else if v == '|' && peek(cs, a) == Some('|') {
        (advance(cs, a), LexStep::Emit(KindView::Plain(TokenKind::LogicalOr)), t)
    } else if v == '{' {
        plain(TokenKind::LeftBracket)
    } else if v == '}' {
        plain(TokenKind::RightBracket)
    } else if v == '[' {
        plain(TokenKind::LeftSquare)
    } else if v == ']' {
        plain(TokenKind::RightSquare)
    } else if v == '%' {
        plain(TokenKind::Percent)
    } else if v == '+' {
        let (c2, st) = next_matches(cs, a, '=', TokenKind::AddEquals, TokenKind::Plus);
        (c2, st, t)
    } else if v == '-' {
        let (c2, st) = next_matches(cs, a, '=', TokenKind::SubEquals, TokenKind::Minus);
        (c2, st, t)
    } else if v == '*' {
        let (c2, st) = next_matches(cs, a, '=', TokenKind::MulEquals, TokenKind::Star);
        (c2, st, t)
    } else if v == '^' {
        plain(TokenKind::Caret)
    } else if v == ',' {
        plain(TokenKind::Comma)
    } else if v == '.' {
        plain(TokenKind::Dot)
    } else if v == ':' {
        let (c2, st) = next_matches(cs, a, ':', TokenKind::DoubleColon, TokenKind::Colon);
        (c2, st, t)
    } else if v == '=' {
        let (c2, st) = next_matches(cs, a, '=', TokenKind::EqualsTo, TokenKind::Equals);
        (c2, st, t)
    } else if v == '!' {
        let (c2, st) = next_matches(cs, a, '=', TokenKind::NotEqualsTo, TokenKind::Bang);
        (c2, st, t)
    } else if v == '_' {
        plain(TokenKind::Underscore)
    } else {
        (a, LexStep::Errors(seq![LexError {
            kind: LexErrorKind::InvalidCharacter(v),
            range: SourceRange { start: a.offset as usize, end: a.offset as usize },
        }]), t)
    }
}

/// The characters that are a token of their own whatever follows them.
pub open spec fn single_char_token(v: char) -> Option<TokenKind> {
    if v == '(' {
        Some(TokenKind::LeftParenthesis)
    } else if v == ')' {
        Some(TokenKind::RightParenthesis)
    } else if v == '{' {
        Some(TokenKind::LeftBracket)
    } else if v == '}' {
        Some(TokenKind::RightBracket)
    } else if v == '[' {
        Some(TokenKind::LeftSquare)
    } else if v == ']' {
        Some(TokenKind::RightSquare)
    } else if v == '%' {
        Some(TokenKind::Percent)
    } else if v == '^' {
        Some(TokenKind::Caret)
    } else if v == ',' {
        Some(TokenKind::Comma)
    } else if v == '.' {
        Some(TokenKind::Dot)
    } else {
        None
    }
}

/// The characters that are a token of their own, or a longer token
/// together with one particular character after them: that character, the
/// longer token, and the token of the character alone.
pub open spec fn paired_token(v: char) -> Option<(char, TokenKind, TokenKind)> {
    if v == '<' {
        Some(('=', TokenKind::LesserEquals, TokenKind::LeftAngle))
    } else if v == '>' {
        Some(('=', TokenKind::GreaterEquals, TokenKind::RightAngle))
    } else if v == '+' {
        Some(('=', TokenKind::AddEquals, TokenKind::Plus))
    } else if v == '-' {
        Some(('=', TokenKind::SubEquals, TokenKind::Minus))
    } else if v == '*' {
        Some(('=', TokenKind::MulEquals, TokenKind::Star))
    } else if v == ':' {
        Some((':', TokenKind::DoubleColon, TokenKind::Colon))
    } else if v == '=' {
        Some(('=', TokenKind::EqualsTo, TokenKind::Equals))
    } else if v == '!' {
        Some(('=', TokenKind::NotEqualsTo, TokenKind::Bang))
    } else {
        None
    }
}

/// The punctuation of the language: a character that is a token of its
/// own gives that token and does not move the cursor on; one that pairs
/// with the character after it gives the longer token and takes that
/// character where it follows, and its own token otherwise; `/` starts a
/// comment before `/`, gives `/=` before `=`, and is a slash otherwise;
/// `&&` and `||` are one token each; a space or a newline gives none.
pub proof fn law_punctuation(cs: Seq<char>, a: LexCursor, t: Seq<SymbolValue>)
    ensures
        a.current matches Some(v) ==> (single_char_token(v) matches Some(k)
            ==> lex_token(cs, a, t) == (a, LexStep::Emit(KindView::Plain(k)), t)),
        a.current matches Some(v) ==> (paired_token(v) matches Some((m, yes, no))
            ==> lex_token(cs, a, t) == (if peek(cs, a) == Some(m) {
                (advance(cs, a), LexStep::Emit(KindView::Plain(yes)), t)
            } else {
                (a, LexStep::Emit(KindView::Plain(no)), t)
            })),
        a.current == Some('/') ==> lex_token(cs, a, t) == (if peek(cs, a) == Some('/') {
                (skip_comment(cs, a), LexStep::Skip, t)
            } else if peek(cs, a) == Some('=') {
                (advance(cs, a), LexStep::Emit(KindView::Plain(TokenKind::DivEquals)), t)
            } else {
                (a, LexStep::Emit(KindView::Plain(TokenKind::Slash)), t)
            }),
        a.current == Some('&') && peek(cs, a) == Some('&')
            ==> lex_token(cs, a, t) == (advance(cs, a), LexStep::Emit(KindView::Plain(TokenKind::LogicalAnd)), t),
        a.current == Some('|') && peek(cs, a) == Some('|')
            ==> lex_token(cs, a, t) == (advance(cs, a), LexStep::Emit(KindView::Plain(TokenKind::LogicalOr)), t),
        a.current == Some(' ') || a.current == Some('\n') ==> lex_token(cs, a, t) == (a, LexStep::Skip, t),
{
}

/// Lexing on from a character that is a token of its own adds exactly that
/// token, spanning the character's byte offset, and goes on from the
/// character after it.
pub proof fn law_lex_single_char_token(cs: Seq<char>, c: LexCursor, t: Seq<SymbolValue>, tokens: Seq<TokenView>, errors: Seq<LexError>)
    ensures
        advance(cs, c).current matches Some(v) ==> single_char_token(v) matches Some(k)
            ==> lex_from(cs, c, t, tokens, errors) == lex_from(cs, advance(cs, c), t, tokens.push(TokenView {
                kind: KindView::Plain(k),
                range: SourceRange { start: advance(cs, c).offset as usize, end: advance(cs, c).offset as usize },
            }), errors),
{
    law_punctuation(cs, advance(cs, c), t);
}

/// A token's step leaves no more work than the cursor on its first
/// character had.
pub proof fn lemma_lex_token_measure(cs: Seq<char>, a: LexCursor, t: Seq<SymbolValue>)
    requires
        a.current is Some,
        !a.stale,
    ensures
        measure(cs, lex_token(cs, a, t).0) <= measure(cs, a),
{
    let v = a.current->0;
    lemma_advance(cs, a);
    if '0' <= v && v <= '9' {
        lemma_number_measure(cs, a);
    } else if v == '"' {
        lemma_string_scan_measure(cs, a, Seq::empty(), Seq::empty(), false);
    } else if v == '/' {
        lemma_skip_comment(cs, a);
    } else if is_letter(v) || v == '_' {
        lemma_ident_scan_measure(cs, a, seq![v]);
    }
}

/// The tokens, errors and table after lexing from the cursor on, given
/// those so far; at the end an end-of-file token at the byte before the
/// cursor.
pub open spec fn lex_from(cs: Seq<char>, c: LexCursor, t: Seq<SymbolValue>, tokens: Seq<TokenView>, errors: Seq<LexError>)
    -> (Seq<TokenView>, Seq<LexError>, Seq<SymbolValue>)
    decreases measure(cs, c),
{
    let a = advance(cs, c);
    match a.current {
        None => {
            let end: nat = if a.offset >= 1 { (a.offset - 1) as nat } else { 0 };
            (tokens.push(TokenView { kind: KindView::Plain(TokenKind::EndOfFile), range: SourceRange { start: end as usize, end: end as usize } }), errors, t)
        },
        Some(v) => {
            proof {
                lemma_advance(cs, c);
                lemma_lex_token_measure(cs, a, t);
            }
            let (c2, step, t2) = lex_token(cs, a, t);
            match step {
                LexStep::Emit(k) => {
                    let end = if c2.stale { c2.offset - 1 } else { c2.offset as int };
                    lex_from(cs, c2, t2, tokens.push(TokenView { kind: k, range: SourceRange { start: a.offset as usize, end: end as usize } }), errors)
                },
                LexStep::Skip => lex_from(cs, c2, t2, tokens, errors),
                LexStep::Errors(es) => lex_from(cs, c2, t2, tokens, errors + es),
            }
        },
    }
}

/// What lexing `cs` gives: the tokens, or every error found, and the
/// table with the identifiers and strings interned.
pub open spec fn lex_spec(cs: Seq<char>, t: Seq<SymbolValue>) -> (Result<Seq<TokenView>, Seq<LexError>>, Seq<SymbolValue>) {
    let start = LexCursor { next: 0, current: None, offset: 0, stale: false, count: 0 };
    let (tokens, errors, t2) = lex_from(cs, start, t, Seq::empty(), Seq::empty());
    (if errors.len() == 0 { Ok(tokens) } else { Err(errors) }, t2)
}

/// What one token start gave, as the lexer holds it.
pub enum Step {
    Emit(TokenKind),
    Skip,
    Errors(Vec<LexError>),
}

pub open spec fn step_view(s: Step) -> LexStep {
    match s {
        Step::Emit(k) => LexStep::Emit(kind_view(k)),
        Step::Skip => LexStep::Skip,
        Step::Errors(v) => LexStep::Errors(v@),
    }
}

/// The errors of lexing one file.
#[derive(Debug, PartialEq, Eq, Clone)]
pub struct LexFailure {
    pub file: SymbolIndex,
    pub errors: Vec<LexError>,
}

impl Lexer {
    fn next_matches(&mut self, matches: char, yes: TokenKind, no: TokenKind) -> (r: Step)
        requires
            old(self).wf(),
            kind_view(yes) == KindView::Plain(yes),
            kind_view(no) == KindView::Plain(no),
        ensures
            final(self).wf(),
            final(self).chars() == old(self).chars(),
            (final(self).cursor(), step_view(r)) == next_matches(old(self).chars(), old(self).cursor(), matches, yes, no),
    {
        if is_char(self.peek(), matches) {
            self.advance();
            return Step::Emit(yes);
        }
        Step::Emit(no)
    }

    /// The token that starts at the current character.
    fn token(&mut self, table: &mut SymbolTable) -> (r: Step)
        requires
            old(self).wf(),
            old(table).wf(),
            old(self).cursor().current is Some,
            !old(self).cursor().stale,
            old(self).cursor().count >= 1,
        ensures
            final(self).wf(),
            final(table).wf(),
            final(self).chars() == old(self).chars(),
            (final(self).cursor(), step_view(r), final(table)@) == lex_token(old(self).chars(), old(self).cursor(), old(table)@),
            final(self).cursor().stale ==> final(self).cursor().offset >= 1,
    {
        let ghost cs = self.chars();
        let ghost a = self.cursor();
        let v = match self.current_character() {
            Some(v) => v,
            None => ' ',
        };
        let p = self.peek();
        proof {
            lemma_advance_wf(cs, a);
        }
        if '0' <= v && v <= '9' {
            let r = self.number();
            self.set_stale();
            match r {
                Ok(l) => Step::Emit(TokenKind::Literal(l)),
                Err(e) => {
                    let mut es: Vec<LexError> = Vec::new();
                    es.push(e);
                    assert(es@ =~= seq![e]);
                    Step::Errors(es)
                },
            }
        } else if v == '\n' || v == ' ' {
            Step::Skip
        } else if v == '"' {
            match self.string(table) {
                Ok(l) => Step::Emit(TokenKind::Literal(l)),
                Err(es) => Step::Errors(es),
            }
        } else if v == '/' {
            if is_char(p, '/') {
                loop
                    invariant
                        self.wf(),
                        self.chars() == cs,
                        skip_comment(cs, a) == skip_comment(cs, self.cursor()),
                        !self.cursor().stale,
                    ensures
                        self.wf(),
                        self.chars() == cs,
                        skip_comment(cs, a) == self.cursor(),
                        !self.cursor().stale,
                    decreases measure(cs, self.cursor()),
                {
                    let ghost before = self.cursor();
                    proof {
                        lemma_advance(cs, before);
                        lemma_advance_wf(cs, before);
                    }
                    match self.current_character() {
                        Some(value) => {
                            if value == '\n' {
                                break;
                            }
                            self.advance();
                        },
                        None => {
                            break;
                        },
                    }
                }
                Step::Skip
            } else if is_char(p, '=') {
                self.advance();
                Step::Emit(TokenKind::DivEquals)
            } else {
                Step::Emit(TokenKind::Slash)
            }
        } else if ('a' <= v && v <= 'z') || ('A' <= v && v <= 'Z') || (v == '_' && (match p {
            Some(q) => is_ident_char_exec(q),
            None => false,
        })) {
            Step::Emit(self.identifier(table))
        } else if v == '(' {
            Step::Emit(TokenKind::LeftParenthesis)
        } else if v == ')' {
            Step::Emit(TokenKind::RightParenthesis)
        } else if v == '<' {
            self.next_matches('=', TokenKind::LesserEquals, TokenKind::LeftAngle)
        } else if v == '>' {
            self.next_matches('=', TokenKind::GreaterEquals, TokenKind::RightAngle)
        } else if v == '&' && is_char(p, '&') {
            self.advance();
            Step::Emit(TokenKind::LogicalAnd)
        } else if v == '|' && is_char(p, '|') {
            self.advance();
            Step::Emit(TokenKind::LogicalOr)
        } else if v == '{' {
            Step::Emit(TokenKind::LeftBracket)
        } else if v == '}' {
            Step::Emit(TokenKind::RightBracket)
        } else if v == '[' {
            Step::Emit(TokenKind::LeftSquare)
        } else if v == ']' {
            Step::Emit(TokenKind::RightSquare)
        } else if v == '%' {
            Step::Emit(TokenKind::Percent)
        } else if v == '+' {
            self.next_matches('=', TokenKind::AddEquals, TokenKind::Plus)
        } else if v == '-' {
            self.next_matches('=', TokenKind::SubEquals, TokenKind::Minus)
        } else if v == '*' {
            self.next_matches('=', TokenKind::MulEquals, TokenKind::Star)
        } else if v == '^' {
            Step::Emit(TokenKind::Caret)
        } else if v == ',' {
            Step::Emit(TokenKind::Comma)
        } else if v == '.' {
            Step::Emit(TokenKind::Dot)
        } else if v == ':' {
            self.next_matches(':', TokenKind::DoubleColon, TokenKind::Colon)
        } else if v == '=' {
            self.next_matches('=', TokenKind::EqualsTo, TokenKind::Equals)
        } else if v == '!' {
            self.next_matches('=', TokenKind::NotEqualsTo, TokenKind::Bang)
        } else if v == '_' {
            Step::Emit(TokenKind::Underscore)
        } else {
            let mut es: Vec<LexError> = Vec::new();
            let e = LexError {
                kind: LexErrorKind::InvalidCharacter(v),
                range: SourceRange::new(self.character_index, self.character_index),
            };
            es.push(e);
            assert(es@ =~= seq![e]);
            Step::Errors(es)
        }
    }
}

/// No tab and no carriage return: the text has been prepared for lexing.
pub open spec fn prepared(cs: Seq<char>) -> bool {
    forall|i: int| 0 <= i < cs.len() ==> cs[i] != '\t' && cs[i] != '\r'
}

pub open spec fn token_views(ts: Seq<Token>) -> Seq<TokenView> {
    ts.map_values(|t: Token| token_view(t))
}

/// Lexes `data`, the text of file `file`, interning its identifiers and
/// strings in `symbol_table`: the tokens, ending in an end-of-file token,
/// or every error found.
pub fn lex(data: &str, file: SymbolIndex, symbol_table: &mut SymbolTable) -> (r: Result<Vec<Token>, LexFailure>)
    requires
        old(symbol_table).wf(),
        4 * data@.len() + 8 < usize::MAX,
        prepared(data@),
    ensures
        final(symbol_table).wf(),
        final(symbol_table)@ == lex_spec(data@, old(symbol_table)@).1,
        match (r, lex_spec(data@, old(symbol_table)@).0) {
            (Ok(ts), Ok(vs)) => token_views(ts@) == vs,
            (Err(f), Err(es)) => f.errors@ == es && f.file == file,
            _ => false,
        },
{
    let mut lexer = Lexer::new(data);
    let ghost cs = data@;
    let ghost c0 = lexer.cursor();
    let ghost t0 = symbol_table@;
    let mut tokens: Vec<Token> = Vec::new();
    let mut errors: Vec<LexError> = Vec::new();
    proof {
        assert(token_views(tokens@) =~= Seq::<TokenView>::empty());
    }
    loop
        invariant_except_break
            lex_from(cs, c0, t0, Seq::empty(), Seq::empty())
                == lex_from(cs, lexer.cursor(), symbol_table@, token_views(tokens@), errors@),
        invariant
            lexer.wf(),
            symbol_table.wf(),
            lexer.chars() == cs,
        ensures
            lexer.wf(),
            symbol_table.wf(),
            lexer.chars() == cs,
            lex_from(cs, c0, t0, Seq::empty(), Seq::empty()) == (token_views(tokens@), errors@, symbol_table@),
        decreases measure(cs, lexer.cursor()),
    {
        let ghost c = lexer.cursor();
        proof {
            lemma_advance(cs, c);
            lemma_advance_wf(cs, c);
        }
        match lexer.advance() {
            None => {
                let end = lexer.character_index.saturating_sub(1);
                let ghost before = tokens@;
                tokens.push(Token { token_kind: TokenKind::EndOfFile, source_range: SourceRange::new(end, end) });
                assert(token_views(tokens@) =~= token_views(before).push(token_view(tokens@.last())));
                break;
            },
            Some(_) => {},
        }
        let ghost a = lexer.cursor();
        let start = lexer.character_index;
        proof {
            lemma_lex_token_measure(cs, a, symbol_table@);
        }
        let step = lexer.token(symbol_table);
        match step {
            Step::Emit(kind) => {
                let end = if lexer.stale { lexer.character_index - 1 } else { lexer.character_index };
                let ghost before = tokens@;
                tokens.push(Token { token_kind: kind, source_range: SourceRange::new(start, end) });
                assert(token_views(tokens@) =~= token_views(before).push(token_view(tokens@.last())));
            },
            Step::Skip => {},
            Step::Errors(mut es) => {
                let ghost before = errors@;
                errors.append(&mut es);
            },
        }
    }
    if errors.len() == 0 {
        Ok(tokens)
    } else {
        Err(LexFailure { file, errors })
    }
}

/// `p` is the character `c`.
fn is_char(p: Option<char>, c: char) -> (r: bool)
    ensures
        r == (p == Some(c)),
{
    match p {
        Some(v) => v == c,
        None => false,
    }
}

/// Interning keeps every entry and only appends.
pub open spec fn extends(t: Seq<SymbolValue>, t2: Seq<SymbolValue>) -> bool {
    t2.len() >= t.len() && forall|i: int| 0 <= i < t.len() ==> #[trigger] t2[i] == t[i]
}

proof fn lemma_intern_extends(t: Seq<SymbolValue>, v: SymbolValue)
    ensures
        extends(t, spec_intern(t, v).0),
{
    crate::symbol_table::lemma_first_index_of(t, v);
}

proof fn lemma_lex_token_extends(cs: Seq<char>, a: LexCursor, t: Seq<SymbolValue>)
    requires
        a.current is Some,
    ensures
        extends(t, lex_token(cs, a, t).2),
{
    let v = a.current->0;
    if v == '"' {
        let (b, s, errs) = string_scan(cs, a, Seq::empty(), Seq::empty(), false);
        lemma_intern_extends(t, SymbolValue::Text(s));
    } else if is_letter(v) || v == '_' {
        let (c2, s) = ident_scan(cs, a, seq![v]);
        lemma_intern_extends(t, SymbolValue::Text(s));
    }
}

proof fn lemma_lex_from(cs: Seq<char>, c: LexCursor, t: Seq<SymbolValue>, tokens: Seq<TokenView>, errors: Seq<LexError>)
    ensures
        ({
            let (ts, es, t2) = lex_from(cs, c, t, tokens, errors);
            &&& ts.len() > tokens.len()
            &&& ts.subrange(0, tokens.len() as int) == tokens
            &&& ts.last().kind == KindView::Plain(TokenKind::EndOfFile)
            &&& es.len() >= errors.len()
            &&& es.subrange(0, errors.len() as int) == errors
            &&& extends(t, t2)
        }),
    decreases measure(cs, c),
{
    let a = advance(cs, c);
    lemma_advance(cs, c);
    if a.current is Some {
        lemma_lex_token_measure(cs, a, t);
        lemma_lex_token_extends(cs, a, t);
        let (c2, step, t2) = lex_token(cs, a, t);
        match step {
            LexStep::Emit(k) => {
                let end = if c2.stale { c2.offset - 1 } else { c2.offset as int };
                let tokens2 = tokens.push(TokenView { kind: k, range: SourceRange { start: a.offset as usize, end: end as usize } });
                lemma_lex_from(cs, c2, t2, tokens2, errors);
                let (ts, es, t3) = lex_from(cs, c2, t2, tokens2, errors);
                assert(ts.subrange(0, tokens.len() as int) =~= ts.subrange(0, tokens2.len() as int).subrange(0, tokens.len() as int));
                assert(tokens2.subrange(0, tokens.len() as int) =~= tokens);
            },
            LexStep::Skip => {
                lemma_lex_from(cs, c2, t2, tokens, errors);
            },
            LexStep::Errors(more) => {
                lemma_lex_from(cs, c2, t2, tokens, errors + more);
                let (ts, es, t3) = lex_from(cs, c2, t2, tokens, errors + more);
                assert(es.subrange(0, errors.len() as int) =~= es.subrange(0, (errors + more).len() as int).subrange(0, errors.len() as int));
                assert((errors + more).subrange(0, errors.len() as int) =~= errors);
            },
        }
    } else {
        assert(tokens.subrange(0, tokens.len() as int) =~= tokens);
        assert(errors.subrange(0, errors.len() as int) =~= errors);
    }
}

/// Lexing ends its tokens with an end-of-file token, and keeps every
/// entry of the symbol table, only appending to it: the indices handed
/// out before stay valid.
pub proof fn law_lex_shape(cs: Seq<char>, t: Seq<SymbolValue>)
    ensures
        lex_spec(cs, t).0 matches Ok(ts) ==> ts.len() >= 1 && ts.last().kind == KindView::Plain(TokenKind::EndOfFile),
        extends(t, lex_spec(cs, t).1),
{
    let start = LexCursor { next: 0, current: None, offset: 0, stale: false, count: 0 };
    lemma_lex_from(cs, start, t, Seq::empty(), Seq::empty());
}

} // verus!
