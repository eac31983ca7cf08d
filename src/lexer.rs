use vstd::prelude::*;
use crate::ast::Span;
use crate::text::cat3;

verus! {

/// The tokens of the schema language.
#[derive(Clone, Debug, PartialEq)]
pub enum Token {
    Error,
    Abstract,
    Table,
    Extends,
    Id(String),
    LeftBrace,
    RightBrace,
    LeftParen,
    RightParen,
    Primary,
    Unique,
    Ref,
    RefOneToMany,
    RefOneToOne,
    RefManyToMany,
    Dot,
    Comma,
    Colon,
    Indexes,
}

/// Model of a token: an identifier holds its characters.
pub enum TokenV {
    Error,
    Abstract,
    Table,
    Extends,
    Id(Seq<char>),
    LeftBrace,
    RightBrace,
    LeftParen,
    RightParen,
    Primary,
    Unique,
    Ref,
    RefOneToMany,
    RefOneToOne,
    RefManyToMany,
    Dot,
    Comma,
    Colon,
    Indexes,
}

impl View for Token {
    type V = TokenV;

    open spec fn view(&self) -> TokenV {
        match self {
            Token::Error => TokenV::Error,
            Token::Abstract => TokenV::Abstract,
            Token::Table => TokenV::Table,
            Token::Extends => TokenV::Extends,
            Token::Id(s) => TokenV::Id(s@),
            Token::LeftBrace => TokenV::LeftBrace,
            Token::RightBrace => TokenV::RightBrace,
            Token::LeftParen => TokenV::LeftParen,
            Token::RightParen => TokenV::RightParen,
            Token::Primary => TokenV::Primary,
            Token::Unique => TokenV::Unique,
            Token::Ref => TokenV::Ref,
            Token::RefOneToMany => TokenV::RefOneToMany,
            Token::RefOneToOne => TokenV::RefOneToOne,
            Token::RefManyToMany => TokenV::RefManyToMany,
            Token::Dot => TokenV::Dot,
            Token::Comma => TokenV::Comma,
            Token::Colon => TokenV::Colon,
            Token::Indexes => TokenV::Indexes,
        }
    }
}

/// How a token reads in messages.
pub open spec fn token_text(t: TokenV) -> Seq<char> {
    match t {
        TokenV::Error => "<error>"@,
        TokenV::Abstract => "abstract"@,
        TokenV::Table => "table"@,
        TokenV::Extends => "extends"@,
        TokenV::Id(n) => "Id<"@ + n + ">"@,
        TokenV::LeftBrace => "{"@,
        TokenV::RightBrace => "}"@,
        TokenV::LeftParen => "("@,
        TokenV::RightParen => ")"@,
        TokenV::Primary => "primary"@,
        TokenV::Unique => "unique"@,
        TokenV::Ref => "ref"@,
        TokenV::RefOneToMany => "=>"@,
        TokenV::RefOneToOne => "=="@,
        TokenV::RefManyToMany => "<>"@,
        TokenV::Dot => "."@,
        TokenV::Comma => ","@,
        TokenV::Colon => ":"@,
        TokenV::Indexes => "indexes"@,
    }
}

impl Token {
    /// The text of the token as messages show it.
    pub fn describe(&self) -> (r: String)
        ensures
            r@ == token_text(self@),
    {
        match self {
            Token::Error => String::from_str("<error>"),
            Token::Abstract => String::from_str("abstract"),
            Token::Table => String::from_str("table"),
            Token::Extends => String::from_str("extends"),
            Token::Id(n) => cat3("Id<", n.as_str(), ">"),
            Token::LeftBrace => String::from_str("{"),
            Token::RightBrace => String::from_str("}"),
            Token::LeftParen => String::from_str("("),
            Token::RightParen => String::from_str(")"),
            Token::Primary => String::from_str("primary"),
            Token::Unique => String::from_str("unique"),
            Token::Ref => String::from_str("ref"),
            Token::RefOneToMany => String::from_str("=>"),
            Token::RefOneToOne => String::from_str("=="),
            Token::RefManyToMany => String::from_str("<>"),
            Token::Dot => String::from_str("."),
            Token::Comma => String::from_str(","),
            Token::Colon => String::from_str(":"),
            Token::Indexes => String::from_str("indexes"),
        }
    }
}

pub open spec fn tokens_view(v: Seq<(Token, Span)>) -> Seq<(TokenV, Span)> {
    v.map_values(|p: (Token, Span)| (p.0@, p.1))
}

pub open spec fn is_letter(c: u8) -> bool {
    (65 <= c && c <= 90) || (97 <= c && c <= 122)
}

pub open spec fn is_ident_byte(c: u8) -> bool {
    is_letter(c) || (48 <= c && c <= 57) || c == 95
}

/// Space, tab, form feed and newline.
pub open spec fn is_space(c: u8) -> bool {
    c == 32 || c == 9 || c == 12 || c == 10
}

/// A byte that continues a multi-byte UTF-8 sequence.
pub open spec fn is_continuation(c: u8) -> bool {
    128 <= c && c < 192
}

/// First position at or after `pos` whose byte does not continue an identifier.
pub open spec fn ident_end(b: Seq<u8>, pos: int) -> int
    decreases b.len() - pos,
{
    if 0 <= pos < b.len() && is_ident_byte(b[pos]) {
        ident_end(b, pos + 1)
    } else {
        pos
    }
}

/// First position at or after `pos` that is no continuation byte: the end of
/// the character that started before `pos`.
pub open spec fn char_end(b: Seq<u8>, pos: int) -> int
    decreases b.len() - pos,
{
    if 0 <= pos < b.len() && is_continuation(b[pos]) {
        char_end(b, pos + 1)
    } else {
        pos
    }
}

/// First position at or after `pos` that holds no whitespace.
pub open spec fn skip_spaces(b: Seq<u8>, pos: int) -> int
    decreases b.len() - pos,
{
    if 0 <= pos < b.len() && is_space(b[pos]) {
        skip_spaces(b, pos + 1)
    } else {
        pos
    }
}

pub proof fn lemma_ident_end_bounds(b: Seq<u8>, pos: int)
    requires
        0 <= pos <= b.len(),
    ensures
        pos <= ident_end(b, pos) <= b.len(),
        forall|i: int| pos <= i < ident_end(b, pos) ==> is_ident_byte(#[trigger] b[i]),
    decreases b.len() - pos,
{
    if pos < b.len() && is_ident_byte(b[pos]) {
        lemma_ident_end_bounds(b, pos + 1);
    }
}

pub proof fn lemma_char_end_bounds(b: Seq<u8>, pos: int)
    requires
        0 <= pos <= b.len(),
    ensures
        pos <= char_end(b, pos) <= b.len(),
    decreases b.len() - pos,
{
    if pos < b.len() && is_continuation(b[pos]) {
        lemma_char_end_bounds(b, pos + 1);
    }
}

pub proof fn lemma_skip_spaces_bounds(b: Seq<u8>, pos: int)
    requires
        0 <= pos <= b.len(),
    ensures
        pos <= skip_spaces(b, pos) <= b.len(),
        skip_spaces(b, pos) < b.len() ==> !is_space(b[skip_spaces(b, pos)]),
    decreases b.len() - pos,
{
    if pos < b.len() && is_space(b[pos]) {
        lemma_skip_spaces_bounds(b, pos + 1);
    }
}

/// The characters of the ASCII bytes `b[s..e]`.
pub open spec fn text_of(b: Seq<u8>, s: int, e: int) -> Seq<char> {
    b.subrange(s, e).map_values(|x: u8| x as char)
}

/// The keyword that a word spells, if any.
pub open spec fn keyword(w: Seq<char>) -> Option<TokenV> {
    if w == "abstract"@ {
        Some(TokenV::Abstract)
    } else if w == "table"@ {
        Some(TokenV::Table)
    } else if w == "extends"@ {
        Some(TokenV::Extends)
    } else if w == "primary"@ {
        Some(TokenV::Primary)
    } else if w == "unique"@ {
        Some(TokenV::Unique)
    } else if w == "ref"@ {
        Some(TokenV::Ref)
    } else if w == "indexes"@ {
        Some(TokenV::Indexes)
    } else {
        None
    }
}

/// A word is a keyword token, or else an identifier.
pub open spec fn word_token(w: Seq<char>) -> TokenV {
    match keyword(w) {
        Some(t) => t,
        None => TokenV::Id(w),
    }
}

/// The token that starts at `s`, where `b[s]` is no whitespace, and the position
/// where it ends. A word is read as far as it goes; a byte that starts no token
/// gives an error token that covers its whole character.
pub open spec fn token_at(b: Seq<u8>, s: int) -> (TokenV, int) {
    let c = b[s];
    let two = s + 1 < b.len();
    if is_letter(c) {
        let e = ident_end(b, s + 1);
        (word_token(text_of(b, s, e)), e)
    } else if c == 123 {
        (TokenV::LeftBrace, s + 1)
    } else if c == 125 {
        (TokenV::RightBrace, s + 1)
    } else if c == 40 {
        (TokenV::LeftParen, s + 1)
    } else if c == 41 {
        (TokenV::RightParen, s + 1)
    } else if c == 46 {
        (TokenV::Dot, s + 1)
    } else if c == 44 {
        (TokenV::Comma, s + 1)
    } else if c == 58 {
        (TokenV::Colon, s + 1)
    } else if c == 61 && two && b[s + 1] == 62 {
        (TokenV::RefOneToMany, s + 2)
    } else if c == 61 && two && b[s + 1] == 61 {
        (TokenV::RefOneToOne, s + 2)
    } else if c == 60 && two && b[s + 1] == 62 {
        (TokenV::RefManyToMany, s + 2)
    } else {
        (TokenV::Error, char_end(b, s + 1))
    }
}

pub proof fn lemma_token_at_bounds(b: Seq<u8>, s: int)
    requires
        0 <= s < b.len(),
    ensures
        s < token_at(b, s).1 <= b.len(),
{
    lemma_ident_end_bounds(b, s + 1);
    lemma_char_end_bounds(b, s + 1);
}

#[via_fn]
proof fn lex_from_decreases(b: Seq<u8>, pos: int) {
    if 0 <= pos <= b.len() {
        lemma_skip_spaces_bounds(b, pos);
        let s = skip_spaces(b, pos);
        if s < b.len() {
            lemma_token_at_bounds(b, s);
        }
    }
}

/// The tokens of `b[pos..]`, each with its byte span, whitespace dropped.
pub open spec fn lex_from(b: Seq<u8>, pos: int) -> Seq<(TokenV, Span)>
    decreases b.len() - pos via lex_from_decreases
{
    if 0 <= pos <= b.len() && skip_spaces(b, pos) < b.len() {
        let s = skip_spaces(b, pos);
        let (t, e) = token_at(b, s);
        seq![(t, Span { start: s as usize, end: e as usize })] + lex_from(b, e)
    } else {
        Seq::empty()
    }
}

/// The tokens of a source text, over its UTF-8 bytes.
pub open spec fn lex(src: Seq<char>) -> Seq<(TokenV, Span)> {
    lex_from(vstd::utf8::encode_utf8(src), 0)
}

/// Relies on `String::push`: the character is appended at the end.
#[verifier::external_body]
fn push_char(s: &mut String, c: char)
    ensures
        final(s)@ == old(s)@.push(c),
{
    s.push(c);
}

fn scan_ident_end(b: &[u8], pos: usize) -> (e: usize)
    requires
        pos <= b@.len(),
    ensures
        e == ident_end(b@, pos as int),
{
    let mut e = pos;
    while e < b.len() && (b[e] >= 65 && b[e] <= 90 || b[e] >= 97 && b[e] <= 122 || b[e] >= 48
        && b[e] <= 57 || b[e] == 95)
        invariant
            pos <= e <= b@.len(),
            ident_end(b@, e as int) == ident_end(b@, pos as int),
        decreases b@.len() - e,
    {
        e = e + 1;
    }
    e
}

fn scan_char_end(b: &[u8], pos: usize) -> (e: usize)
    requires
        pos <= b@.len(),
    ensures
        e == char_end(b@, pos as int),
{
    let mut e = pos;
    while e < b.len() && b[e] >= 128 && b[e] < 192
        invariant
            pos <= e <= b@.len(),
            char_end(b@, e as int) == char_end(b@, pos as int),
        decreases b@.len() - e,
    {
        e = e + 1;
    }
    e
}

fn text_between(b: &[u8], s: usize, e: usize) -> (r: String)
    requires
        s <= e <= b@.len(),
    ensures
        r@ == text_of(b@, s as int, e as int),
{
    let mut r = String::new();
    let mut i = s;
    while i < e
        invariant
            s <= i <= e <= b@.len(),
            r@ == text_of(b@, s as int, i as int),
        decreases e - i,
    {
        push_char(&mut r, b[i] as char);
        assert(text_of(b@, s as int, i + 1) =~= text_of(b@, s as int, i as int).push(
            b@[i as int] as char,
        ));
        i = i + 1;
    }
    r
}

/// The token for a word: a keyword, or else an identifier.
fn word_token_of(w: String) -> (t: Token)
    ensures
        t@ == word_token(w@),
{
    if w == String::from_str("abstract") {
        Token::Abstract
    } else if w == String::from_str("table") {
        Token::Table
    } else if w == String::from_str("extends") {
        Token::Extends
    } else if w == String::from_str("primary") {
        Token::Primary
    } else if w == String::from_str("unique") {
        Token::Unique
    } else if w == String::from_str("ref") {
        Token::Ref
    } else if w == String::from_str("indexes") {
        Token::Indexes
    } else {
        Token::Id(w)
    }
}

fn next_token(b: &[u8], s: usize) -> (r: (Token, usize))
    requires
        s < b@.len(),
    ensures
        (r.0@, r.1 as int) == token_at(b@, s as int),
{
    let c = b[s];
    let two = s + 1 < b.len();
    if c >= 65 && c <= 90 || c >= 97 && c <= 122 {
        let e = scan_ident_end(b, s + 1);
        proof {
            lemma_ident_end_bounds(b@, s + 1);
        }
        let w = text_between(b, s, e);
        (word_token_of(w), e)
    } else if c == 123 {
        (Token::LeftBrace, s + 1)
    } else if c == 125 {
        (Token::RightBrace, s + 1)
    } else if c == 40 {
        (Token::LeftParen, s + 1)
    } else if c == 41 {
        (Token::RightParen, s + 1)
    } else if c == 46 {
        (Token::Dot, s + 1)
    } else if c == 44 {
        (Token::Comma, s + 1)
    } else if c == 58 {
        (Token::Colon, s + 1)
    } else if c == 61 && two && b[s + 1] == 62 {
        (Token::RefOneToMany, s + 2)
    } else if c == 61 && two && b[s + 1] == 61 {
        (Token::RefOneToOne, s + 2)
    } else if c == 60 && two && b[s + 1] == 62 {
        (Token::RefManyToMany, s + 2)
    } else {
        (Token::Error, scan_char_end(b, s + 1))
    }
}

/// Splits a source text into spanned tokens. Whitespace is dropped; input that
/// starts no token becomes an error token, so lexing never fails.
pub fn tokenize(src: &str) -> (r: Vec<(Token, Span)>)
    ensures
        tokens_view(r@) == lex(src@),
{
    let b = src.as_bytes();
    let ghost bs = b@;
    assert(bs == vstd::utf8::encode_utf8(src@));
    let mut out: Vec<(Token, Span)> = Vec::new();
    let mut pos: usize = 0;
    while pos < b.len()
        invariant
            b@ == bs,
            pos <= bs.len(),
            tokens_view(out@) + lex_from(bs, pos as int) == lex_from(bs, 0),
        decreases bs.len() - pos,
    {
        let c = b[pos];
        if c == 32 || c == 9 || c == 12 || c == 10 {
            assert(lex_from(bs, pos + 1) == lex_from(bs, pos as int));
            pos = pos + 1;
        } else {
            let (t, e) = next_token(b, pos);
            proof {
                lemma_token_at_bounds(bs, pos as int);
            }
            let ghost old_out = out@;
            out.push((t, Span { start: pos, end: e }));
            assert(tokens_view(out@) =~= tokens_view(old_out).push(
                (t@, Span { start: pos, end: e }),
            ));
            assert(tokens_view(out@) + lex_from(bs, e as int) =~= tokens_view(old_out)
                + lex_from(bs, pos as int));
            pos = e;
        }
    }
    assert(lex_from(bs, pos as int) =~= Seq::empty());
    assert(tokens_view(out@) =~= lex_from(bs, 0));
    out
}

} // verus!
