use vstd::prelude::*;
use crate::ast::{
    columns_view, idents_view, indexes_view, tables_view, ColumnAttribute, ColumnDef, ColumnV,
    Ident, IdentV, Index, IndexV, RefOperator, ReferenceDef, ReferenceV, Schema, SchemaV, Span,
    TableDef, TableV,
};
use crate::lexer::{lex, token_text, tokenize, tokens_view, Token, TokenV};
use crate::text::{cat2, cat3};

verus! {

/// What the parser was looking for where it failed.
#[derive(Clone, Copy, Debug, PartialEq, Eq, Structural)]
pub enum Expected {
    Table,
    Ident,
    LeftBrace,
    RightBrace,
    LeftParen,
    RightParen,
    Colon,
    Comma,
    Dot,
    Ref,
    RefOperator,
    IndexItem,
    Indexes,
}

/// A syntax error: where it happened, what was expected there, and the token
/// found instead (`None` at the end of the input).
#[derive(Clone, Debug)]
pub struct SyntaxError {
    pub span: Span,
    pub expected: Expected,
    pub found: Option<Token>,
}

pub struct SyntaxErrorV {
    pub span: Span,
    pub expected: Expected,
    pub found: Option<TokenV>,
}

impl View for SyntaxError {
    type V = SyntaxErrorV;

    open spec fn view(&self) -> SyntaxErrorV {
        SyntaxErrorV {
            span: self.span,
            expected: self.expected,
            found: match self.found {
                Some(t) => Some(t@),
                None => None,
            },
        }
    }
}

/// How an expectation reads in messages.
pub open spec fn expected_text(e: Expected) -> Seq<char> {
    match e {
        Expected::Table => "'table'"@,
        Expected::Ident => "id"@,
        Expected::LeftBrace => "'{'"@,
        Expected::RightBrace => "'}'"@,
        Expected::LeftParen => "'('"@,
        Expected::RightParen => "')'"@,
        Expected::Colon => "':'"@,
        Expected::Comma => "','"@,
        Expected::Dot => "'.'"@,
        Expected::Ref => "'ref'"@,
        Expected::RefOperator => "ref operators given '=>, ==, <>'"@,
        Expected::IndexItem => "single index or multiple indexes"@,
        Expected::Indexes => "'indexes'"@,
    }
}

/// The message of a syntax error: what was found, and what was expected.
pub open spec fn syntax_message(e: SyntaxErrorV) -> Seq<char> {
    "found "@ + match e.found {
        Some(t) => token_text(t),
        None => "end of input"@,
    } + " expected "@ + expected_text(e.expected)
}

impl Expected {
    pub fn describe(&self) -> (r: String)
        ensures
            r@ == expected_text(*self),
    {
        let s = match self {
            Expected::Table => "'table'",
            Expected::Ident => "id",
            Expected::LeftBrace => "'{'",
            Expected::RightBrace => "'}'",
            Expected::LeftParen => "'('",
            Expected::RightParen => "')'",
            Expected::Colon => "':'",
            Expected::Comma => "','",
            Expected::Dot => "'.'",
            Expected::Ref => "'ref'",
            Expected::RefOperator => "ref operators given '=>, ==, <>'",
            Expected::IndexItem => "single index or multiple indexes",
            Expected::Indexes => "'indexes'",
        };
        String::from_str(s)
    }
}

impl SyntaxError {
    pub fn message(&self) -> (r: String)
        ensures
            r@ == syntax_message(self@),
    {
        let found = match &self.found {
            Some(t) => t.describe(),
            None => String::from_str("end of input"),
        };
        let head = cat3("found ", found.as_str(), " expected ");
        let ex = self.expected.describe();
        cat2(head.as_str(), ex.as_str())
    }
}

/// The outcome of a grammar rule at some position: the value and the position
/// after it, or the error.
pub type PRes<T> = Result<(T, int), SyntaxErrorV>;

pub open spec fn tok(ts: Seq<(TokenV, Span)>, i: int) -> Option<TokenV> {
    if 0 <= i < ts.len() {
        Some(ts[i].0)
    } else {
        None
    }
}

/// The error at token `i`; past the last token it points at the end of input.
pub open spec fn fail_at(ts: Seq<(TokenV, Span)>, eoi: usize, i: int, ex: Expected) -> SyntaxErrorV {
    SyntaxErrorV {
        span: if 0 <= i < ts.len() {
            ts[i].1
        } else {
            Span { start: eoi, end: eoi }
        },
        expected: ex,
        found: tok(ts, i),
    }
}

/// The span from the start of token `a` to the end of token `b - 1`.
pub open spec fn span_between(ts: Seq<(TokenV, Span)>, a: int, b: int) -> Span {
    Span { start: ts[a].1.start, end: ts[b - 1].1.end }
}

/// The rule's outcome is the value `a`, with the next position `j`.
pub open spec fn yields<A>(r: PRes<A>, a: A, j: usize) -> bool {
    r == PRes::<A>::Ok((a, j as int))
}

pub open spec fn fails_with<A>(r: PRes<A>, e: SyntaxErrorV) -> bool {
    r == PRes::<A>::Err(e)
}

pub open spec fn then_prefix<T>(acc: Seq<T>, r: PRes<Seq<T>>) -> PRes<Seq<T>> {
    match r {
        Ok((s, k)) => Ok((acc + s, k)),
        Err(e) => Err(e),
    }
}

pub open spec fn expect_tok(ts: Seq<(TokenV, Span)>, eoi: usize, i: int, want: TokenV, ex: Expected) -> PRes<()> {
    if tok(ts, i) == Some(want) {
        Ok(((), i + 1))
    } else {
        Err(fail_at(ts, eoi, i, ex))
    }
}

pub open spec fn ident_rule(ts: Seq<(TokenV, Span)>, eoi: usize, i: int) -> PRes<IdentV> {
    match tok(ts, i) {
        Some(TokenV::Id(n)) => Ok((IdentV { name: n, span: ts[i].1 }, i + 1)),
        _ => Err(fail_at(ts, eoi, i, Expected::Ident)),
    }
}

pub open spec fn ref_operator_rule(ts: Seq<(TokenV, Span)>, eoi: usize, i: int) -> PRes<RefOperator> {
    match tok(ts, i) {
        Some(TokenV::RefOneToMany) => Ok((RefOperator::OneToMany, i + 1)),
        Some(TokenV::RefOneToOne) => Ok((RefOperator::OneToOne, i + 1)),
        Some(TokenV::RefManyToMany) => Ok((RefOperator::ManyToMany, i + 1)),
        _ => Err(fail_at(ts, eoi, i, Expected::RefOperator)),
    }
}

/// `"(" "ref" refop ident "." ident ")"`
pub open spec fn reference_rule(ts: Seq<(TokenV, Span)>, eoi: usize, i: int) -> PRes<ReferenceV> {
    match expect_tok(ts, eoi, i, TokenV::LeftParen, Expected::LeftParen) {
        Err(e) => Err(e),
        Ok((_, i1)) => match expect_tok(ts, eoi, i1, TokenV::Ref, Expected::Ref) {
            Err(e) => Err(e),
            Ok((_, i2)) => match ref_operator_rule(ts, eoi, i2) {
                Err(e) => Err(e),
                Ok((op, i3)) => match ident_rule(ts, eoi, i3) {
                    Err(e) => Err(e),
                    Ok((table, i4)) => match expect_tok(ts, eoi, i4, TokenV::Dot, Expected::Dot) {
                        Err(e) => Err(e),
                        Ok((_, i5)) => match ident_rule(ts, eoi, i5) {
                            Err(e) => Err(e),
                            Ok((column, i6)) => match expect_tok(
                                ts,
                                eoi,
                                i6,
                                TokenV::RightParen,
                                Expected::RightParen,
                            ) {
                                Err(e) => Err(e),
                                Ok((_, i7)) => Ok(
                                    (
                                        ReferenceV {
                                            operator: op,
                                            table,
                                            column,
                                            span: span_between(ts, i, i7),
                                        },
                                        i7,
                                    ),
                                ),
                            },
                        },
                    },
                },
            },
        },
    }
}

pub open spec fn attribute_rule(ts: Seq<(TokenV, Span)>, i: int) -> (Option<ColumnAttribute>, int) {
    match tok(ts, i) {
        Some(TokenV::Primary) => (Some(ColumnAttribute::Primary), i + 1),
        Some(TokenV::Unique) => (Some(ColumnAttribute::Unique), i + 1),
        _ => (None, i),
    }
}

/// `ident ":" ident attribute? reference?`
pub open spec fn column_rule(ts: Seq<(TokenV, Span)>, eoi: usize, i: int) -> PRes<ColumnV> {
    match ident_rule(ts, eoi, i) {
        Err(e) => Err(e),
        Ok((id, i1)) => match expect_tok(ts, eoi, i1, TokenV::Colon, Expected::Colon) {
            Err(e) => Err(e),
            Ok((_, i2)) => match ident_rule(ts, eoi, i2) {
                Err(e) => Err(e),
                Ok((typ, i3)) => {
                    let (attribute, i4) = attribute_rule(ts, i3);
                    let reference: PRes<Option<ReferenceV>> = if tok(ts, i4) == Some(
                        TokenV::LeftParen,
                    ) {
                        match reference_rule(ts, eoi, i4) {
                            Err(e) => Err(e),
                            Ok((r, k)) => Ok((Some(r), k)),
                        }
                    } else {
                        Ok((None, i4))
                    };
                    match reference {
                        Err(e) => Err(e),
                        Ok((reference, i5)) => Ok(
                            (
                                ColumnV {
                                    id,
                                    typ,
                                    attribute,
                                    reference,
                                    span: span_between(ts, i, i5),
                                },
                                i5,
                            ),
                        ),
                    }
                },
            },
        },
    }
}

pub proof fn lemma_column_advances(ts: Seq<(TokenV, Span)>, eoi: usize, i: int)
    requires
        0 <= i,
    ensures
        column_rule(ts, eoi, i) is Ok ==> i < column_rule(ts, eoi, i)->Ok_0.1 <= ts.len(),
{
}

#[via_fn]
proof fn columns_after_decreases(ts: Seq<(TokenV, Span)>, eoi: usize, j: int) {
    if 0 <= j {
        lemma_column_advances(ts, eoi, j + 1);
    }
}

/// The columns that follow a column ending at `j`, each after a comma.
pub open spec fn columns_after(ts: Seq<(TokenV, Span)>, eoi: usize, j: int) -> PRes<Seq<ColumnV>>
    decreases ts.len() - j via columns_after_decreases
{
    if 0 <= j && tok(ts, j) == Some(TokenV::Comma) {
        match column_rule(ts, eoi, j + 1) {
            Err(e) => Err(e),
            Ok((c, k)) => then_prefix(seq![c], columns_after(ts, eoi, k)),
        }
    } else {
        Ok((Seq::empty(), j))
    }
}

/// `column ("," column)*`
pub open spec fn columns_rule(ts: Seq<(TokenV, Span)>, eoi: usize, i: int) -> PRes<Seq<ColumnV>> {
    match column_rule(ts, eoi, i) {
        Err(e) => Err(e),
        Ok((c, j)) => then_prefix(seq![c], columns_after(ts, eoi, j)),
    }
}

pub proof fn lemma_ident_advances(ts: Seq<(TokenV, Span)>, eoi: usize, i: int)
    requires
        0 <= i,
    ensures
        ident_rule(ts, eoi, i) is Ok ==> i < ident_rule(ts, eoi, i)->Ok_0.1 <= ts.len(),
{
}

#[via_fn]
proof fn idents_after_decreases(ts: Seq<(TokenV, Span)>, eoi: usize, j: int) {
    if 0 <= j {
        lemma_ident_advances(ts, eoi, j + 1);
    }
}

/// The identifiers that follow position `j`, each after a comma.
pub open spec fn idents_after(ts: Seq<(TokenV, Span)>, eoi: usize, j: int) -> PRes<Seq<IdentV>>
    decreases ts.len() - j via idents_after_decreases
{
    if 0 <= j && tok(ts, j) == Some(TokenV::Comma) {
        match ident_rule(ts, eoi, j + 1) {
            Err(e) => Err(e),
            Ok((c, k)) => then_prefix(seq![c], idents_after(ts, eoi, k)),
        }
    } else {
        Ok((Seq::empty(), j))
    }
}

/// `"(" ident "," ident ("," ident)* ")"`
pub open spec fn composite_rule(ts: Seq<(TokenV, Span)>, eoi: usize, i: int) -> PRes<IndexV> {
    match expect_tok(ts, eoi, i, TokenV::LeftParen, Expected::LeftParen) {
        Err(e) => Err(e),
        Ok((_, i1)) => match ident_rule(ts, eoi, i1) {
            Err(e) => Err(e),
            Ok((first, i2)) => match expect_tok(ts, eoi, i2, TokenV::Comma, Expected::Comma) {
                Err(e) => Err(e),
                Ok((_, i3)) => match ident_rule(ts, eoi, i3) {
                    Err(e) => Err(e),
                    Ok((second, i4)) => match idents_after(ts, eoi, i4) {
                        Err(e) => Err(e),
                        Ok((rest, i5)) => match expect_tok(
                            ts,
                            eoi,
                            i5,
                            TokenV::RightParen,
                            Expected::RightParen,
                        ) {
                            Err(e) => Err(e),
                            Ok((_, i6)) => Ok(
                                (
                                    IndexV::Composite(
                                        seq![first, second] + rest,
                                        span_between(ts, i, i6),
                                    ),
                                    i6,
                                ),
                            ),
                        },
                    },
                },
            },
        },
    }
}

/// A composite index, or a single column name.
pub open spec fn index_item_rule(ts: Seq<(TokenV, Span)>, eoi: usize, i: int) -> PRes<IndexV> {
    if tok(ts, i) == Some(TokenV::LeftParen) {
        composite_rule(ts, eoi, i)
    } else {
        match ident_rule(ts, eoi, i) {
            Err(_) => Err(fail_at(ts, eoi, i, Expected::IndexItem)),
            Ok((id, j)) => Ok((IndexV::Single(id, id.span), j)),
        }
    }
}

pub proof fn lemma_idents_after_bounds(ts: Seq<(TokenV, Span)>, eoi: usize, j: int)
    requires
        0 <= j <= ts.len(),
    ensures
        idents_after(ts, eoi, j) is Ok ==> j <= idents_after(ts, eoi, j)->Ok_0.1 <= ts.len(),
    decreases ts.len() - j,
{
    if tok(ts, j) == Some(TokenV::Comma) {
        lemma_ident_advances(ts, eoi, j + 1);
        if let Ok((_, k)) = ident_rule(ts, eoi, j + 1) {
            lemma_idents_after_bounds(ts, eoi, k);
        }
    }
}

pub proof fn lemma_index_item_advances(ts: Seq<(TokenV, Span)>, eoi: usize, i: int)
    requires
        0 <= i <= ts.len(),
    ensures
        index_item_rule(ts, eoi, i) is Ok ==> i < index_item_rule(ts, eoi, i)->Ok_0.1 <= ts.len(),
{
    if tok(ts, i) == Some(TokenV::LeftParen) {
        if ident_rule(ts, eoi, i + 1) is Ok && expect_tok(ts, eoi, i + 2, TokenV::Comma, Expected::Comma) is Ok
            && ident_rule(ts, eoi, i + 3) is Ok {
            lemma_idents_after_bounds(ts, eoi, i + 4);
        }
    }
}

#[via_fn]
proof fn items_after_decreases(ts: Seq<(TokenV, Span)>, eoi: usize, j: int) {
    if 0 <= j < ts.len() {
        lemma_index_item_advances(ts, eoi, j + 1);
    }
}

/// The index items that follow position `j`, each after a comma.
pub open spec fn items_after(ts: Seq<(TokenV, Span)>, eoi: usize, j: int) -> PRes<Seq<IndexV>>
    decreases ts.len() - j via items_after_decreases
{
    if 0 <= j && tok(ts, j) == Some(TokenV::Comma) {
        match index_item_rule(ts, eoi, j + 1) {
            Err(e) => Err(e),
            Ok((c, k)) => then_prefix(seq![c], items_after(ts, eoi, k)),
        }
    } else {
        Ok((Seq::empty(), j))
    }
}

/// `"indexes" "{" index_item ("," index_item)* "}"`
pub open spec fn index_section_rule(ts: Seq<(TokenV, Span)>, eoi: usize, i: int) -> PRes<Seq<IndexV>> {
    match expect_tok(ts, eoi, i, TokenV::Indexes, Expected::Indexes) {
      Err(e) => Err(e),
      Ok((_, i0)) => match expect_tok(ts, eoi, i0, TokenV::LeftBrace, Expected::LeftBrace) {
        Err(e) => Err(e),
        Ok((_, i1)) => match index_item_rule(ts, eoi, i1) {
            Err(e) => Err(e),
            Ok((first, i2)) => match items_after(ts, eoi, i2) {
                Err(e) => Err(e),
                Ok((rest, i3)) => match expect_tok(
                    ts,
                    eoi,
                    i3,
                    TokenV::RightBrace,
                    Expected::RightBrace,
                ) {
                    Err(e) => Err(e),
                    Ok((_, i4)) => Ok((seq![first] + rest, i4)),
                },
            },
        },
      },
    }
}

/// An index section after the closing brace, when none stood inside.
pub open spec fn trailing_indexes(ts: Seq<(TokenV, Span)>, eoi: usize, inner: Option<Seq<IndexV>>, j: int) -> PRes<
    Option<Seq<IndexV>>,
> {
    if inner is None && tok(ts, j) == Some(TokenV::Indexes) {
        match index_section_rule(ts, eoi, j) {
            Err(e) => Err(e),
            Ok((v, k)) => Ok((Some(v), k)),
        }
    } else {
        Ok((inner, j))
    }
}

/// `"abstract"? "table" ident ("extends" ident)? "{" columns indexes? "}" indexes?`
/// where the index section stands either inside the braces or after them,
/// not both.
#[verifier::opaque]
pub open spec fn table_rule(ts: Seq<(TokenV, Span)>, eoi: usize, i: int) -> PRes<TableV> {
    let is_abstract = tok(ts, i) == Some(TokenV::Abstract);
    let i1 = if is_abstract {
        i + 1
    } else {
        i
    };
    match expect_tok(ts, eoi, i1, TokenV::Table, Expected::Table) {
        Err(e) => Err(e),
        Ok((_, i2)) => match ident_rule(ts, eoi, i2) {
            Err(e) => Err(e),
            Ok((id, i3)) => {
                let ext: PRes<Option<IdentV>> = if tok(ts, i3) == Some(TokenV::Extends) {
                    match ident_rule(ts, eoi, i3 + 1) {
                        Err(e) => Err(e),
                        Ok((p, k)) => Ok((Some(p), k)),
                    }
                } else {
                    Ok((None, i3))
                };
                match ext {
                    Err(e) => Err(e),
                    Ok((extended_by, i4)) => match expect_tok(
                        ts,
                        eoi,
                        i4,
                        TokenV::LeftBrace,
                        Expected::LeftBrace,
                    ) {
                        Err(e) => Err(e),
                        Ok((_, i5)) => match columns_rule(ts, eoi, i5) {
                            Err(e) => Err(e),
                            Ok((columns, i6)) => {
                                let ixs: PRes<Option<Seq<IndexV>>> = if tok(ts, i6) == Some(
                                    TokenV::Indexes,
                                ) {
                                    match index_section_rule(ts, eoi, i6) {
                                        Err(e) => Err(e),
                                        Ok((v, k)) => Ok((Some(v), k)),
                                    }
                                } else {
                                    Ok((None, i6))
                                };
                                match ixs {
                                    Err(e) => Err(e),
                                    Ok((indexes, i7)) => match expect_tok(
                                        ts,
                                        eoi,
                                        i7,
                                        TokenV::RightBrace,
                                        Expected::RightBrace,
                                    ) {
                                        Err(e) => Err(e),
                                        Ok((_, i8)) => match trailing_indexes(ts, eoi, indexes, i8) {
                                            Err(e) => Err(e),
                                            Ok((indexes, i9)) => Ok(
                                                (
                                                    TableV {
                                                        id,
                                                        is_abstract,
                                                        extended_by,
                                                        columns,
                                                        indexes,
                                                        span: span_between(ts, i, i9),
                                                    },
                                                    i9,
                                                ),
                                            ),
                                        },
                                    },
                                }
                            },
                        },
                    },
                }
            },
        },
    }
}

pub proof fn lemma_columns_after_bounds(ts: Seq<(TokenV, Span)>, eoi: usize, j: int)
    requires
        0 <= j <= ts.len(),
    ensures
        columns_after(ts, eoi, j) is Ok ==> j <= columns_after(ts, eoi, j)->Ok_0.1 <= ts.len(),
    decreases ts.len() - j,
{
    if tok(ts, j) == Some(TokenV::Comma) {
        lemma_column_advances(ts, eoi, j + 1);
        if let Ok((_, k)) = column_rule(ts, eoi, j + 1) {
            lemma_columns_after_bounds(ts, eoi, k);
        }
    }
}

pub proof fn lemma_items_after_bounds(ts: Seq<(TokenV, Span)>, eoi: usize, j: int)
    requires
        0 <= j <= ts.len(),
    ensures
        items_after(ts, eoi, j) is Ok ==> j <= items_after(ts, eoi, j)->Ok_0.1 <= ts.len(),
    decreases ts.len() - j,
{
    if tok(ts, j) == Some(TokenV::Comma) {
        lemma_index_item_advances(ts, eoi, j + 1);
        if let Ok((_, k)) = index_item_rule(ts, eoi, j + 1) {
            lemma_items_after_bounds(ts, eoi, k);
        }
    }
}

pub proof fn lemma_index_section_advances(ts: Seq<(TokenV, Span)>, eoi: usize, j: int)
    requires
        0 <= j,
    ensures
        index_section_rule(ts, eoi, j) is Ok ==> j < index_section_rule(ts, eoi, j)->Ok_0.1 <= ts.len(),
{
    if tok(ts, j) == Some(TokenV::Indexes) && tok(ts, j + 1) == Some(TokenV::LeftBrace) {
        lemma_index_item_advances(ts, eoi, j + 2);
        if let Ok((_, i2)) = index_item_rule(ts, eoi, j + 2) {
            lemma_items_after_bounds(ts, eoi, i2);
        }
    }
}

pub proof fn lemma_table_advances(ts: Seq<(TokenV, Span)>, eoi: usize, i: int)
    requires
        0 <= i,
    ensures
        table_rule(ts, eoi, i) is Ok ==> i < table_rule(ts, eoi, i)->Ok_0.1 <= ts.len(),
{
    reveal(table_rule);
    let is_abstract = tok(ts, i) == Some(TokenV::Abstract);
    let i1 = if is_abstract { i + 1 } else { i };
    if tok(ts, i1) == Some(TokenV::Table) && ident_rule(ts, eoi, i1 + 1) is Ok {
        let i3 = i1 + 2;
        let i4 = if tok(ts, i3) == Some(TokenV::Extends) { i3 + 2 } else { i3 };
        if tok(ts, i4) == Some(TokenV::LeftBrace) {
            let i5 = i4 + 1;
            lemma_column_advances(ts, eoi, i5);
            if let Ok((_, j)) = column_rule(ts, eoi, i5) {
                lemma_columns_after_bounds(ts, eoi, j);
                if let Ok((_, i6)) = columns_rule(ts, eoi, i5) {
                    lemma_index_section_advances(ts, eoi, i6);
                    lemma_index_section_advances(ts, eoi, i6 + 1);
                }
            }
        }
    }
}

#[via_fn]
proof fn tables_after_decreases(ts: Seq<(TokenV, Span)>, eoi: usize, j: int) {
    if 0 <= j {
        lemma_table_advances(ts, eoi, j);
    }
}

/// The tables from position `j` to the end of the input.
pub open spec fn tables_after(ts: Seq<(TokenV, Span)>, eoi: usize, j: int) -> PRes<Seq<TableV>>
    decreases ts.len() - j via tables_after_decreases
{
    if 0 <= j < ts.len() {
        match table_rule(ts, eoi, j) {
            Err(e) => Err(e),
            Ok((t, k)) => then_prefix(seq![t], tables_after(ts, eoi, k)),
        }
    } else {
        Ok((Seq::empty(), j))
    }
}

/// `table+`, up to the end of the input.
pub open spec fn schema_rule(name: Seq<char>, ts: Seq<(TokenV, Span)>, eoi: usize) -> Result<SchemaV, SyntaxErrorV> {
    match table_rule(ts, eoi, 0) {
        Err(e) => Err(e),
        Ok((t, j)) => match then_prefix(seq![t], tables_after(ts, eoi, j)) {
            Err(e) => Err(e),
            Ok((tables, _)) => Ok(SchemaV { name, tables, span: span_between(ts, 0, ts.len() as int) }),
        },
    }
}

/// What parsing a source text yields.
pub open spec fn parse_spec(name: Seq<char>, src: Seq<char>) -> Result<SchemaV, SyntaxErrorV> {
    schema_rule(name, lex(src), vstd::utf8::encode_utf8(src).len() as usize)
}

pub proof fn lemma_then_prefix_push<T>(acc: Seq<T>, c: T, r: PRes<Seq<T>>)
    ensures
        then_prefix(acc, then_prefix(seq![c], r)) == then_prefix(acc.push(c), r),
{
    if let Ok((s, k)) = r {
        assert(acc + (seq![c] + s) =~= acc.push(c) + s);
    }
}

/// A copy of a token with the same model.
pub fn copy_token(t: &Token) -> (r: Token)
    ensures
        r@ == t@,
{
    match t {
        Token::Error => Token::Error,
        Token::Abstract => Token::Abstract,
        Token::Table => Token::Table,
        Token::Extends => Token::Extends,
        Token::Id(s) => Token::Id(s.clone()),
        Token::LeftBrace => Token::LeftBrace,
        Token::RightBrace => Token::RightBrace,
        Token::LeftParen => Token::LeftParen,
        Token::RightParen => Token::RightParen,
        Token::Primary => Token::Primary,
        Token::Unique => Token::Unique,
        Token::Ref => Token::Ref,
        Token::RefOneToMany => Token::RefOneToMany,
        Token::RefOneToOne => Token::RefOneToOne,
        Token::RefManyToMany => Token::RefManyToMany,
        Token::Dot => Token::Dot,
        Token::Comma => Token::Comma,
        Token::Colon => Token::Colon,
        Token::Indexes => Token::Indexes,
    }
}

/// Whether `t` is the token `want`, which holds no identifier.
fn same_token(t: &Token, want: &Token) -> (r: bool)
    requires
        !(want@ is Id),
    ensures
        r == (t@ == want@),
{
    match (t, want) {
        (Token::Error, Token::Error) => true,
        (Token::Abstract, Token::Abstract) => true,
        (Token::Table, Token::Table) => true,
        (Token::Extends, Token::Extends) => true,
        (Token::LeftBrace, Token::LeftBrace) => true,
        (Token::RightBrace, Token::RightBrace) => true,
        (Token::LeftParen, Token::LeftParen) => true,
        (Token::RightParen, Token::RightParen) => true,
        (Token::Primary, Token::Primary) => true,
        (Token::Unique, Token::Unique) => true,
        (Token::Ref, Token::Ref) => true,
        (Token::RefOneToMany, Token::RefOneToMany) => true,
        (Token::RefOneToOne, Token::RefOneToOne) => true,
        (Token::RefManyToMany, Token::RefManyToMany) => true,
        (Token::Dot, Token::Dot) => true,
        (Token::Comma, Token::Comma) => true,
        (Token::Colon, Token::Colon) => true,
        (Token::Indexes, Token::Indexes) => true,
        _ => false,
    }
}

/// Whether token `i` exists and is `want`.
fn at(ts: &Vec<(Token, Span)>, i: usize, want: &Token) -> (r: bool)
    requires
        !(want@ is Id),
    ensures
        r == (tok(tokens_view(ts@), i as int) == Some(want@)),
        r ==> i < ts@.len() <= usize::MAX,
{
    i < ts.len() && same_token(&ts[i].0, want)
}

fn fail(ts: &Vec<(Token, Span)>, eoi: usize, i: usize, ex: Expected) -> (e: SyntaxError)
    ensures
        e@ == fail_at(tokens_view(ts@), eoi, i as int, ex),
{
    if i < ts.len() {
        SyntaxError { span: ts[i].1, expected: ex, found: Some(copy_token(&ts[i].0)) }
    } else {
        SyntaxError { span: Span { start: eoi, end: eoi }, expected: ex, found: None }
    }
}

fn expect(ts: &Vec<(Token, Span)>, eoi: usize, i: usize, want: &Token, ex: Expected) -> (r: Result<usize, SyntaxError>)
    requires
        !(want@ is Id),
    ensures
        match r {
            Ok(j) => yields(expect_tok(tokens_view(ts@), eoi, i as int, want@, ex), (), j),
            Err(e) => fails_with(expect_tok(tokens_view(ts@), eoi, i as int, want@, ex), e@),
        },
{
    if at(ts, i, want) {
        Ok(i + 1)
    } else {
        Err(fail(ts, eoi, i, ex))
    }
}

fn parse_ident(ts: &Vec<(Token, Span)>, eoi: usize, i: usize) -> (r: Result<(Ident, usize), SyntaxError>)
    ensures
        match r {
            Ok((id, j)) => yields(ident_rule(tokens_view(ts@), eoi, i as int), id@, j),
            Err(e) => fails_with(ident_rule(tokens_view(ts@), eoi, i as int), e@),
        },
{
    if i < ts.len() {
        if let Token::Id(n) = &ts[i].0 {
            return Ok((Ident { name: n.clone(), span: ts[i].1 }, i + 1));
        }
    }
    Err(fail(ts, eoi, i, Expected::Ident))
}

fn parse_ref_operator(ts: &Vec<(Token, Span)>, eoi: usize, i: usize) -> (r: Result<(RefOperator, usize), SyntaxError>)
    ensures
        match r {
            Ok((op, j)) => yields(ref_operator_rule(tokens_view(ts@), eoi, i as int), op, j),
            Err(e) => fails_with(ref_operator_rule(tokens_view(ts@), eoi, i as int), e@),
        },
{
    if i < ts.len() {
        match &ts[i].0 {
            Token::RefOneToMany => { return Ok((RefOperator::OneToMany, i + 1)); },
            Token::RefOneToOne => { return Ok((RefOperator::OneToOne, i + 1)); },
            Token::RefManyToMany => { return Ok((RefOperator::ManyToMany, i + 1)); },
            _ => {},
        }
    }
    Err(fail(ts, eoi, i, Expected::RefOperator))
}

fn parse_reference(ts: &Vec<(Token, Span)>, eoi: usize, i: usize) -> (r: Result<(ReferenceDef, usize), SyntaxError>)
    requires
        i <= ts@.len(),
    ensures
        match r {
            Ok((x, j)) => yields(reference_rule(tokens_view(ts@), eoi, i as int), x@, j),
            Err(e) => fails_with(reference_rule(tokens_view(ts@), eoi, i as int), e@),
        },
{
    let i1 = expect(ts, eoi, i, &Token::LeftParen, Expected::LeftParen)?;
    let i2 = expect(ts, eoi, i1, &Token::Ref, Expected::Ref)?;
    let (operator, i3) = parse_ref_operator(ts, eoi, i2)?;
    let (table, i4) = parse_ident(ts, eoi, i3)?;
    let i5 = expect(ts, eoi, i4, &Token::Dot, Expected::Dot)?;
    let (column, i6) = parse_ident(ts, eoi, i5)?;
    let i7 = expect(ts, eoi, i6, &Token::RightParen, Expected::RightParen)?;
    let span = Span { start: ts[i].1.start, end: ts[i7 - 1].1.end };
    Ok((ReferenceDef { operator, table, column, span }, i7))
}

fn parse_column(ts: &Vec<(Token, Span)>, eoi: usize, i: usize) -> (r: Result<(ColumnDef, usize), SyntaxError>)
    requires
        i <= ts@.len(),
    ensures
        match r {
            Ok((x, j)) => yields(column_rule(tokens_view(ts@), eoi, i as int), x@, j),
            Err(e) => fails_with(column_rule(tokens_view(ts@), eoi, i as int), e@),
        },
{
    let (id, i1) = parse_ident(ts, eoi, i)?;
    let i2 = expect(ts, eoi, i1, &Token::Colon, Expected::Colon)?;
    let (typ, i3) = parse_ident(ts, eoi, i2)?;
    let (attribute, i4) = if at(ts, i3, &Token::Primary) {
        (Some(ColumnAttribute::Primary), i3 + 1)
    } else if at(ts, i3, &Token::Unique) {
        (Some(ColumnAttribute::Unique), i3 + 1)
    } else {
        (None, i3)
    };
    let (reference, i5) = if at(ts, i4, &Token::LeftParen) {
        let (x, k) = parse_reference(ts, eoi, i4)?;
        (Some(x), k)
    } else {
        (None, i4)
    };
    let span = Span { start: ts[i].1.start, end: ts[i5 - 1].1.end };
    Ok((ColumnDef { id, typ, attribute, reference, span }, i5))
}

fn parse_columns(ts: &Vec<(Token, Span)>, eoi: usize, i: usize) -> (r: Result<(Vec<ColumnDef>, usize), SyntaxError>)
    requires
        i <= ts@.len(),
    ensures
        match r {
            Ok((v, j)) => yields(columns_rule(tokens_view(ts@), eoi, i as int), columns_view(v@), j),
            Err(e) => fails_with(columns_rule(tokens_view(ts@), eoi, i as int), e@),
        },
{
    let ghost tv = tokens_view(ts@);
    let (c, j) = parse_column(ts, eoi, i)?;
    proof {
        lemma_column_advances(tv, eoi, i as int);
    }
    let mut out: Vec<ColumnDef> = Vec::new();
    out.push(c);
    assert(columns_view(out@) =~= seq![c@]);
    let mut pos = j;
    while at(ts, pos, &Token::Comma)
        invariant
            tv == tokens_view(ts@),
                pos <= ts@.len(),
            columns_rule(tv, eoi, i as int) == then_prefix(columns_view(out@), columns_after(tv, eoi, pos as int)),
        decreases ts@.len() - pos,
    {
        let ghost before = out@;
        let (c, k) = parse_column(ts, eoi, pos + 1)?;
        proof {
            lemma_column_advances(tv, eoi, pos + 1);
            lemma_then_prefix_push(columns_view(before), c@, columns_after(tv, eoi, k as int));
        }
        out.push(c);
        assert(columns_view(out@) =~= columns_view(before).push(c@));
        pos = k;
    }
    assert(columns_view(out@) + Seq::empty() =~= columns_view(out@));
    Ok((out, pos))
}

fn parse_idents_after(ts: &Vec<(Token, Span)>, eoi: usize, j: usize) -> (r: Result<(Vec<Ident>, usize), SyntaxError>)
    requires
        j <= ts@.len(),
    ensures
        match r {
            Ok((v, k)) => yields(idents_after(tokens_view(ts@), eoi, j as int), idents_view(v@), k),
            Err(e) => fails_with(idents_after(tokens_view(ts@), eoi, j as int), e@),
        },
{
    let ghost tv = tokens_view(ts@);
    let mut out: Vec<Ident> = Vec::new();
    let mut pos = j;
    assert(idents_view(out@) =~= Seq::empty());
    assert(then_prefix(Seq::<IdentV>::empty(), idents_after(tv, eoi, j as int)) == idents_after(tv, eoi, j as int)) by {
        if let Ok((s, k)) = idents_after(tv, eoi, j as int) {
            assert(Seq::<IdentV>::empty() + s =~= s);
        }
    }
    while at(ts, pos, &Token::Comma)
        invariant
            tv == tokens_view(ts@),
                pos <= ts@.len(),
            idents_after(tv, eoi, j as int) == then_prefix(idents_view(out@), idents_after(tv, eoi, pos as int)),
        decreases ts@.len() - pos,
    {
        let ghost before = out@;
        let (c, k) = parse_ident(ts, eoi, pos + 1)?;
        proof {
            lemma_ident_advances(tv, eoi, pos + 1);
            lemma_then_prefix_push(idents_view(before), c@, idents_after(tv, eoi, k as int));
        }
        out.push(c);
        assert(idents_view(out@) =~= idents_view(before).push(c@));
        pos = k;
    }
    assert(idents_view(out@) + Seq::empty() =~= idents_view(out@));
    Ok((out, pos))
}

fn parse_composite_index(ts: &Vec<(Token, Span)>, eoi: usize, i: usize) -> (r: Result<(Index, usize), SyntaxError>)
    requires
        i <= ts@.len(),
    ensures
        match r {
            Ok((x, j)) => yields(composite_rule(tokens_view(ts@), eoi, i as int), x@, j),
            Err(e) => fails_with(composite_rule(tokens_view(ts@), eoi, i as int), e@),
        },
{
    let ghost tv = tokens_view(ts@);
    let i1 = expect(ts, eoi, i, &Token::LeftParen, Expected::LeftParen)?;
    let (first, i2) = parse_ident(ts, eoi, i1)?;
    let i3 = expect(ts, eoi, i2, &Token::Comma, Expected::Comma)?;
    let (second, i4) = parse_ident(ts, eoi, i3)?;
    let (rest, i5) = parse_idents_after(ts, eoi, i4)?;
    proof {
        lemma_idents_after_bounds(tv, eoi, i4 as int);
    }
    let i6 = expect(ts, eoi, i5, &Token::RightParen, Expected::RightParen)?;
    let mut ids: Vec<Ident> = Vec::new();
    ids.push(first);
    ids.push(second);
    let ghost rest_v = rest@;
    let mut rest = rest;
    ids.append(&mut rest);
    assert(idents_view(ids@) =~= seq![first@, second@] + idents_view(rest_v));
    let span = Span { start: ts[i].1.start, end: ts[i6 - 1].1.end };
    Ok((Index::Composite(ids, span), i6))
}

fn parse_index_item(ts: &Vec<(Token, Span)>, eoi: usize, i: usize) -> (r: Result<(Index, usize), SyntaxError>)
    requires
        i <= ts@.len(),
    ensures
        match r {
            Ok((x, j)) => yields(index_item_rule(tokens_view(ts@), eoi, i as int), x@, j),
            Err(e) => fails_with(index_item_rule(tokens_view(ts@), eoi, i as int), e@),
        },
{
    if at(ts, i, &Token::LeftParen) {
        parse_composite_index(ts, eoi, i)
    } else {
        match parse_ident(ts, eoi, i) {
            Ok((id, j)) => {
                let span = id.span;
                Ok((Index::Single(id, span), j))
            },
            Err(_) => Err(fail(ts, eoi, i, Expected::IndexItem)),
        }
    }
}

fn parse_index_section(ts: &Vec<(Token, Span)>, eoi: usize, i: usize) -> (r: Result<(Vec<Index>, usize), SyntaxError>)
    requires
        i < ts@.len(),
    ensures
        match r {
            Ok((v, j)) => yields(index_section_rule(tokens_view(ts@), eoi, i as int), indexes_view(v@), j),
            Err(e) => fails_with(index_section_rule(tokens_view(ts@), eoi, i as int), e@),
        },
{
    let ghost tv = tokens_view(ts@);
    let i0 = expect(ts, eoi, i, &Token::Indexes, Expected::Indexes)?;
    let i1 = expect(ts, eoi, i0, &Token::LeftBrace, Expected::LeftBrace)?;
    let (first, i2) = parse_index_item(ts, eoi, i1)?;
    proof {
        lemma_index_item_advances(tv, eoi, i1 as int);
    }
    let ghost first_v = first@;
    let mut out: Vec<Index> = Vec::new();
    out.push(first);
    assert(indexes_view(out@) =~= seq![first_v]);
    let mut pos = i2;
    while at(ts, pos, &Token::Comma)
        invariant
            tv == tokens_view(ts@),
                pos <= ts@.len(),
            then_prefix(seq![first_v], items_after(tv, eoi, i2 as int))
                == then_prefix(indexes_view(out@), items_after(tv, eoi, pos as int)),
            yields(expect_tok(tv, eoi, i as int, TokenV::Indexes, Expected::Indexes), (), i0),
            yields(expect_tok(tv, eoi, i0 as int, TokenV::LeftBrace, Expected::LeftBrace), (), i1),
            yields(index_item_rule(tv, eoi, i1 as int), first_v, i2),
        decreases ts@.len() - pos,
    {
        let ghost before = out@;
        let (c, k) = match parse_index_item(ts, eoi, pos + 1) {
            Ok(x) => x,
            Err(e) => {
                assert(items_after(tv, eoi, i2 as int) == Err::<(Seq<IndexV>, int), SyntaxErrorV>(e@));
                return Err(e);
            },
        };
        proof {
            lemma_index_item_advances(tv, eoi, pos + 1);
            lemma_then_prefix_push(indexes_view(before), c@, items_after(tv, eoi, k as int));
        }
        out.push(c);
        assert(indexes_view(out@) =~= indexes_view(before).push(c@));
        pos = k;
    }
    assert(indexes_view(out@) + Seq::empty() =~= indexes_view(out@));
    let i4 = expect(ts, eoi, pos, &Token::RightBrace, Expected::RightBrace)?;
    Ok((out, i4))
}

fn parse_table(ts: &Vec<(Token, Span)>, eoi: usize, i: usize) -> (r: Result<(TableDef, usize), SyntaxError>)
    requires
        i < ts@.len(),
    ensures
        match r {
            Ok((x, j)) => yields(table_rule(tokens_view(ts@), eoi, i as int), x@, j),
            Err(e) => fails_with(table_rule(tokens_view(ts@), eoi, i as int), e@),
        },
{
    let ghost tv = tokens_view(ts@);
    proof {
        reveal(table_rule);
    }
    let is_abstract = at(ts, i, &Token::Abstract);
    let i1 = if is_abstract {
        i + 1
    } else {
        i
    };
    let i2 = expect(ts, eoi, i1, &Token::Table, Expected::Table)?;
    let (id, i3) = parse_ident(ts, eoi, i2)?;
    let (extended_by, i4) = if at(ts, i3, &Token::Extends) {
        let (p, k) = parse_ident(ts, eoi, i3 + 1)?;
        (Some(p), k)
    } else {
        (None, i3)
    };
    let i5 = expect(ts, eoi, i4, &Token::LeftBrace, Expected::LeftBrace)?;
    let (columns, i6) = parse_columns(ts, eoi, i5)?;
    proof {
        lemma_column_advances(tv, eoi, i5 as int);
        let j = column_rule(tv, eoi, i5 as int)->Ok_0.1;
        lemma_columns_after_bounds(tv, eoi, j);
    }
    let (indexes, i7) = if at(ts, i6, &Token::Indexes) {
        let (v, k) = parse_index_section(ts, eoi, i6)?;
        (Some(v), k)
    } else {
        (None, i6)
    };
    let i8 = expect(ts, eoi, i7, &Token::RightBrace, Expected::RightBrace)?;
    let (indexes, i9) = if indexes.is_none() && at(ts, i8, &Token::Indexes) {
        let (v, k) = parse_index_section(ts, eoi, i8)?;
        (Some(v), k)
    } else {
        (indexes, i8)
    };
    let span = Span { start: ts[i].1.start, end: ts[i9 - 1].1.end };
    Ok((TableDef { id, is_abstract, extended_by, columns, indexes, span }, i9))
}

/// Parses a token sequence, whose source is `eoi` bytes long, into a schema
/// named `name`.
pub fn parse_tokens(name: &str, ts: &Vec<(Token, Span)>, eoi: usize) -> (r: Result<Schema, SyntaxError>)
    requires
    ensures
        match r {
            Ok(s) => schema_rule(name@, tokens_view(ts@), eoi) == Ok::<SchemaV, SyntaxErrorV>(s@),
            Err(e) => schema_rule(name@, tokens_view(ts@), eoi) == Err::<SchemaV, SyntaxErrorV>(e@),
        },
{
    let ghost tv = tokens_view(ts@);
    if ts.len() == 0 {
        proof {
            reveal(table_rule);
        }
        return Err(fail(ts, eoi, 0, Expected::Table));
    }
    let (t, j) = parse_table(ts, eoi, 0)?;
    proof {
        lemma_table_advances(tv, eoi, 0);
    }
    let ghost tview = t@;
    let mut out: Vec<TableDef> = Vec::new();
    out.push(t);
    assert(tables_view(out@) =~= seq![t@]);
    let mut pos = j;
    while pos < ts.len()
        invariant
            tv == tokens_view(ts@),
                pos <= ts@.len(),
            then_prefix(seq![tview], tables_after(tv, eoi, j as int))
                == then_prefix(tables_view(out@), tables_after(tv, eoi, pos as int)),
            yields(table_rule(tv, eoi, 0), tview, j),
        decreases ts@.len() - pos,
    {
        let ghost before = out@;
        let (c, k) = match parse_table(ts, eoi, pos) {
            Ok(x) => x,
            Err(e) => {
                assert(tables_after(tv, eoi, j as int) == Err::<(Seq<TableV>, int), SyntaxErrorV>(e@));
                assert(table_rule(tv, eoi, 0) == Ok::<(TableV, int), SyntaxErrorV>((tview, j as int)));
                assert(schema_rule(name@, tv, eoi) == Err::<SchemaV, SyntaxErrorV>(e@));
                return Err(e);
            },
        };
        proof {
            lemma_table_advances(tv, eoi, pos as int);
            lemma_then_prefix_push(tables_view(before), c@, tables_after(tv, eoi, k as int));
        }
        out.push(c);
        assert(tables_view(out@) =~= tables_view(before).push(c@));
        pos = k;
    }
    assert(tables_view(out@) + Seq::empty() =~= tables_view(out@));
    let span = Span { start: ts[0].1.start, end: ts[ts.len() - 1].1.end };
    Ok(Schema { name: String::from_str(name), tables: out, span })
}

/// Parses a source text into a schema named `source_name`, or reports the
/// first syntax error.
pub fn parse(source_name: &str, src: &str) -> (r: Result<Schema, Vec<SyntaxError>>)
    ensures
        match r {
            Ok(s) => parse_spec(source_name@, src@) == Ok::<SchemaV, SyntaxErrorV>(s@),
            Err(es) => es@.len() == 1 && parse_spec(source_name@, src@) == Err::<SchemaV, SyntaxErrorV>(es@[0]@),
        },
{
    let ts = tokenize(src);
    match parse_tokens(source_name, &ts, src.len()) {
        Ok(s) => Ok(s),
        Err(e) => Err(vec![e]),
    }
}

} // verus!
