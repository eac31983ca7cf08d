use vstd::prelude::*;
use crate::ast::{
    columns_view, idents_view, indexes_view, tables_view, ColumnAttribute, ColumnDef, ColumnV,
    Ident, IdentV, Index, IndexV, RefOperator, ReferenceDef, ReferenceV, Schema, SchemaV, Span,
    TableDef, TableV,
};
use crate::lexer::{
    ident_end, is_ident_byte, is_letter, is_space, keyword, lex, lex_from,
    skip_spaces, text_of, token_at, tokens_view, word_token, Token, TokenV,
};
use crate::parser::{
    parse_spec,
    column_rule, columns_after, columns_rule, ident_rule, idents_after,
    index_item_rule, index_section_rule, items_after, reference_rule, schema_rule, table_rule,
    tables_after, then_prefix, tok,
};

verus! {

// ---- The tokens that spell each node ----

pub open spec fn attribute_tokens(a: Option<ColumnAttribute>) -> Seq<TokenV> {
    match a {
        Some(ColumnAttribute::Primary) => seq![TokenV::Primary],
        Some(ColumnAttribute::Unique) => seq![TokenV::Unique],
        None => Seq::empty(),
    }
}

pub open spec fn operator_token(o: RefOperator) -> TokenV {
    match o {
        RefOperator::OneToMany => TokenV::RefOneToMany,
        RefOperator::OneToOne => TokenV::RefOneToOne,
        RefOperator::ManyToMany => TokenV::RefManyToMany,
    }
}

pub open spec fn reference_tokens(r: Option<ReferenceV>) -> Seq<TokenV> {
    match r {
        Some(r) => seq![
            TokenV::LeftParen,
            TokenV::Ref,
            operator_token(r.operator),
            TokenV::Id(r.table.name),
            TokenV::Dot,
            TokenV::Id(r.column.name),
            TokenV::RightParen,
        ],
        None => Seq::empty(),
    }
}

pub open spec fn column_tokens(c: ColumnV) -> Seq<TokenV> {
    seq![TokenV::Id(c.id.name), TokenV::Colon, TokenV::Id(c.typ.name)] + attribute_tokens(c.attribute)
        + reference_tokens(c.reference)
}

/// `("," column)*`
pub open spec fn more_columns_tokens(cs: Seq<ColumnV>) -> Seq<TokenV>
    decreases cs.len(),
{
    if cs.len() == 0 {
        Seq::empty()
    } else {
        seq![TokenV::Comma] + column_tokens(cs[0]) + more_columns_tokens(cs.drop_first())
    }
}

/// `("," ident)*`
pub open spec fn more_idents_tokens(ids: Seq<IdentV>) -> Seq<TokenV>
    decreases ids.len(),
{
    if ids.len() == 0 {
        Seq::empty()
    } else {
        seq![TokenV::Comma, TokenV::Id(ids[0].name)] + more_idents_tokens(ids.drop_first())
    }
}

pub open spec fn item_tokens(x: IndexV) -> Seq<TokenV> {
    match x {
        IndexV::Single(id, _) => seq![TokenV::Id(id.name)],
        IndexV::Composite(ids, _) => seq![TokenV::LeftParen, TokenV::Id(ids[0].name)]
            + more_idents_tokens(ids.drop_first()) + seq![TokenV::RightParen],
    }
}

/// `("," index_item)*`
pub open spec fn more_items_tokens(xs: Seq<IndexV>) -> Seq<TokenV>
    decreases xs.len(),
{
    if xs.len() == 0 {
        Seq::empty()
    } else {
        seq![TokenV::Comma] + item_tokens(xs[0]) + more_items_tokens(xs.drop_first())
    }
}

pub open spec fn indexes_tokens(ix: Option<Seq<IndexV>>) -> Seq<TokenV> {
    match ix {
        Some(v) => seq![TokenV::Indexes, TokenV::LeftBrace] + item_tokens(v[0]) + more_items_tokens(
            v.drop_first(),
        ) + seq![TokenV::RightBrace],
        None => Seq::empty(),
    }
}

/// A table written out; an index section goes inside the braces, one of the
/// two places the grammar takes it.
pub open spec fn table_tokens(t: TableV) -> Seq<TokenV> {
    (if t.is_abstract {
        seq![TokenV::Abstract]
    } else {
        Seq::empty()
    }) + seq![TokenV::Table, TokenV::Id(t.id.name)] + (match t.extended_by {
        Some(p) => seq![TokenV::Extends, TokenV::Id(p.name)],
        None => Seq::empty(),
    }) + seq![TokenV::LeftBrace] + column_tokens(t.columns[0]) + more_columns_tokens(
        t.columns.drop_first(),
    ) + indexes_tokens(t.indexes) + seq![TokenV::RightBrace]
}

pub open spec fn tables_tokens(ts: Seq<TableV>) -> Seq<TokenV>
    decreases ts.len(),
{
    if ts.len() == 0 {
        Seq::empty()
    } else {
        table_tokens(ts[0]) + tables_tokens(ts.drop_first())
    }
}

/// The tokens that spell a schema.
pub open spec fn schema_tokens(s: SchemaV) -> Seq<TokenV> {
    tables_tokens(s.tables)
}

// ---- Schemas that the grammar can spell ----

pub open spec fn index_well_formed(x: IndexV) -> bool {
    match x {
        IndexV::Composite(ids, _) => ids.len() >= 2,
        IndexV::Single(_, _) => true,
    }
}

pub open spec fn table_well_formed(t: TableV) -> bool {
    &&& t.columns.len() >= 1
    &&& match t.indexes {
        Some(v) => v.len() >= 1 && forall|k: int| 0 <= k < v.len() ==> index_well_formed(#[trigger] v[k]),
        None => true,
    }
}

/// At least one table, each with at least one column, each index section
/// with at least one item, and each composite index with two names or more.
pub open spec fn schema_well_formed(s: SchemaV) -> bool {
    &&& s.tables.len() >= 1
    &&& forall|k: int| 0 <= k < s.tables.len() ==> table_well_formed(#[trigger] s.tables[k])
}

// ---- Equality up to source positions ----

pub open spec fn no_span() -> Span {
    Span { start: 0, end: 0 }
}

pub open spec fn bare_ident(i: IdentV) -> IdentV {
    IdentV { name: i.name, span: no_span() }
}

pub open spec fn bare_idents(v: Seq<IdentV>) -> Seq<IdentV> {
    v.map_values(|i: IdentV| bare_ident(i))
}

pub open spec fn bare_reference(r: Option<ReferenceV>) -> Option<ReferenceV> {
    match r {
        Some(r) => Some(
            ReferenceV {
                operator: r.operator,
                table: bare_ident(r.table),
                column: bare_ident(r.column),
                span: no_span(),
            },
        ),
        None => None,
    }
}

pub open spec fn bare_column(c: ColumnV) -> ColumnV {
    ColumnV {
        id: bare_ident(c.id),
        typ: bare_ident(c.typ),
        attribute: c.attribute,
        reference: bare_reference(c.reference),
        span: no_span(),
    }
}

pub open spec fn bare_columns(v: Seq<ColumnV>) -> Seq<ColumnV> {
    v.map_values(|c: ColumnV| bare_column(c))
}

pub open spec fn bare_index(x: IndexV) -> IndexV {
    match x {
        IndexV::Single(id, _) => IndexV::Single(bare_ident(id), no_span()),
        IndexV::Composite(ids, _) => IndexV::Composite(bare_idents(ids), no_span()),
    }
}

pub open spec fn bare_indexes(v: Seq<IndexV>) -> Seq<IndexV> {
    v.map_values(|x: IndexV| bare_index(x))
}

pub open spec fn bare_table(t: TableV) -> TableV {
    TableV {
        id: bare_ident(t.id),
        is_abstract: t.is_abstract,
        extended_by: match t.extended_by {
            Some(p) => Some(bare_ident(p)),
            None => None,
        },
        columns: bare_columns(t.columns),
        indexes: match t.indexes {
            Some(v) => Some(bare_indexes(v)),
            None => None,
        },
        span: no_span(),
    }
}

pub open spec fn bare_tables(v: Seq<TableV>) -> Seq<TableV> {
    v.map_values(|t: TableV| bare_table(t))
}

/// A schema without its source positions.
pub open spec fn bare_schema(s: SchemaV) -> SchemaV {
    SchemaV { name: s.name, tables: bare_tables(s.tables), span: no_span() }
}

// ---- Token sequences that spell something ----

/// The tokens from position `i` on start with `w`.
pub open spec fn spells_at(ts: Seq<(TokenV, Span)>, i: int, w: Seq<TokenV>) -> bool {
    &&& 0 <= i
    &&& i + w.len() <= ts.len()
    &&& forall|k: int| 0 <= k < w.len() ==> #[trigger] ts[i + k].0 == w[k]
}

pub proof fn lemma_spells_split(ts: Seq<(TokenV, Span)>, i: int, a: Seq<TokenV>, b: Seq<TokenV>)
    requires
        spells_at(ts, i, a + b),
    ensures
        spells_at(ts, i, a),
        spells_at(ts, i + a.len(), b),
{
    assert forall|k: int| 0 <= k < a.len() implies #[trigger] ts[i + k].0 == a[k] by {
        assert(ts[i + k].0 == (a + b)[k]);
    }
    assert forall|k: int| 0 <= k < b.len() implies #[trigger] ts[i + a.len() + k].0 == b[k] by {
        assert(ts[i + (a.len() + k)].0 == (a + b)[a.len() + k]);
    }
}

proof fn lemma_spells_at(ts: Seq<(TokenV, Span)>, i: int, w: Seq<TokenV>, k: int)
    requires
        spells_at(ts, i, w),
        0 <= k < w.len(),
    ensures
        tok(ts, i + k) == Some(w[k]),
{
    assert(ts[i + k].0 == w[k]);
}

/// What may follow a column: a comma, an index section, or the closing brace.
pub open spec fn after_column(ts: Seq<(TokenV, Span)>, j: int) -> bool {
    tok(ts, j) == Some(TokenV::Comma) || tok(ts, j) == Some(TokenV::Indexes) || tok(ts, j) == Some(
        TokenV::RightBrace,
    )
}

proof fn lemma_reference_complete(ts: Seq<(TokenV, Span)>, eoi: usize, i: int, r: ReferenceV)
    requires
        spells_at(ts, i, reference_tokens(Some(r))),
    ensures
        reference_rule(ts, eoi, i) is Ok,
        reference_rule(ts, eoi, i)->Ok_0.1 == i + 7,
        bare_reference(Some(reference_rule(ts, eoi, i)->Ok_0.0)) == bare_reference(Some(r)),
{
    let w = reference_tokens(Some(r));
    lemma_spells_at(ts, i, w, 0);
    lemma_spells_at(ts, i, w, 1);
    lemma_spells_at(ts, i, w, 2);
    lemma_spells_at(ts, i, w, 3);
    lemma_spells_at(ts, i, w, 4);
    lemma_spells_at(ts, i, w, 5);
    lemma_spells_at(ts, i, w, 6);
}

proof fn lemma_column_complete(ts: Seq<(TokenV, Span)>, eoi: usize, i: int, c: ColumnV)
    requires
        spells_at(ts, i, column_tokens(c)),
        after_column(ts, i + column_tokens(c).len()),
    ensures
        column_rule(ts, eoi, i) is Ok,
        column_rule(ts, eoi, i)->Ok_0.1 == i + column_tokens(c).len(),
        bare_column(column_rule(ts, eoi, i)->Ok_0.0) == bare_column(c),
{
    let w = column_tokens(c);
    let head = seq![TokenV::Id(c.id.name), TokenV::Colon, TokenV::Id(c.typ.name)];
    let at = attribute_tokens(c.attribute);
    let rt = reference_tokens(c.reference);
    assert(w == head + at + rt);
    lemma_spells_split(ts, i, head + at, rt);
    lemma_spells_split(ts, i, head, at);
    lemma_spells_at(ts, i, head, 0);
    lemma_spells_at(ts, i, head, 1);
    lemma_spells_at(ts, i, head, 2);
    let i4 = i + 3 + at.len();
    if at.len() > 0 {
        lemma_spells_at(ts, i + 3, at, 0);
    } else if rt.len() > 0 {
        lemma_spells_at(ts, i4, rt, 0);
    }
    if let Some(r) = c.reference {
        lemma_spells_at(ts, i4, rt, 0);
        lemma_reference_complete(ts, eoi, i4, r);
    }
}

/// What may follow the column list: an index section or the closing brace.
pub open spec fn after_columns(ts: Seq<(TokenV, Span)>, j: int) -> bool {
    tok(ts, j) == Some(TokenV::Indexes) || tok(ts, j) == Some(TokenV::RightBrace)
}

proof fn lemma_columns_after_complete(ts: Seq<(TokenV, Span)>, eoi: usize, j: int, cs: Seq<ColumnV>)
    requires
        spells_at(ts, j, more_columns_tokens(cs)),
        after_columns(ts, j + more_columns_tokens(cs).len()),
    ensures
        columns_after(ts, eoi, j) is Ok,
        columns_after(ts, eoi, j)->Ok_0.1 == j + more_columns_tokens(cs).len(),
        bare_columns(columns_after(ts, eoi, j)->Ok_0.0) == bare_columns(cs),
    decreases cs.len(),
{
    if cs.len() == 0 {
        assert(bare_columns(Seq::<ColumnV>::empty()) =~= Seq::empty());
        assert(bare_columns(cs) =~= Seq::empty());
    } else {
        let ct = column_tokens(cs[0]);
        let rest = cs.drop_first();
        let mt = more_columns_tokens(rest);
        assert(more_columns_tokens(cs) == seq![TokenV::Comma] + ct + mt);
        lemma_spells_split(ts, j, seq![TokenV::Comma] + ct, mt);
        lemma_spells_split(ts, j, seq![TokenV::Comma], ct);
        lemma_spells_at(ts, j, seq![TokenV::Comma], 0);
        let k = j + 1 + ct.len();
        if rest.len() > 0 {
            assert(mt == seq![TokenV::Comma] + column_tokens(rest[0]) + more_columns_tokens(rest.drop_first()));
            lemma_spells_at(ts, k, mt, 0);
        }
        lemma_column_complete(ts, eoi, j + 1, cs[0]);
        lemma_columns_after_complete(ts, eoi, k, rest);
        let c2 = column_rule(ts, eoi, j + 1)->Ok_0.0;
        let r2 = columns_after(ts, eoi, k)->Ok_0.0;
        assert(bare_columns(seq![c2] + r2) =~= seq![bare_column(c2)] + bare_columns(r2));
        assert(bare_columns(cs) =~= seq![bare_column(cs[0])] + bare_columns(rest));
    }
}

proof fn lemma_columns_complete(ts: Seq<(TokenV, Span)>, eoi: usize, i: int, cs: Seq<ColumnV>)
    requires
        cs.len() >= 1,
        spells_at(ts, i, column_tokens(cs[0]) + more_columns_tokens(cs.drop_first())),
        after_columns(ts, i + (column_tokens(cs[0]) + more_columns_tokens(cs.drop_first())).len()),
    ensures
        columns_rule(ts, eoi, i) is Ok,
        columns_rule(ts, eoi, i)->Ok_0.1 == i + (column_tokens(cs[0]) + more_columns_tokens(cs.drop_first())).len(),
        bare_columns(columns_rule(ts, eoi, i)->Ok_0.0) == bare_columns(cs),
{
    let ct = column_tokens(cs[0]);
    let rest = cs.drop_first();
    let mt = more_columns_tokens(rest);
    lemma_spells_split(ts, i, ct, mt);
    let k = i + ct.len();
    if rest.len() > 0 {
        assert(mt == seq![TokenV::Comma] + column_tokens(rest[0]) + more_columns_tokens(rest.drop_first()));
        lemma_spells_at(ts, k, mt, 0);
    }
    lemma_column_complete(ts, eoi, i, cs[0]);
    lemma_columns_after_complete(ts, eoi, k, rest);
    let c2 = column_rule(ts, eoi, i)->Ok_0.0;
    let r2 = columns_after(ts, eoi, k)->Ok_0.0;
    assert(bare_columns(seq![c2] + r2) =~= seq![bare_column(c2)] + bare_columns(r2));
    assert(bare_columns(cs) =~= seq![bare_column(cs[0])] + bare_columns(rest));
}

proof fn lemma_idents_after_complete(ts: Seq<(TokenV, Span)>, eoi: usize, j: int, ids: Seq<IdentV>)
    requires
        spells_at(ts, j, more_idents_tokens(ids)),
        tok(ts, j + more_idents_tokens(ids).len()) == Some(TokenV::RightParen),
    ensures
        idents_after(ts, eoi, j) is Ok,
        idents_after(ts, eoi, j)->Ok_0.1 == j + more_idents_tokens(ids).len(),
        bare_idents(idents_after(ts, eoi, j)->Ok_0.0) == bare_idents(ids),
    decreases ids.len(),
{
    if ids.len() == 0 {
        assert(bare_idents(Seq::<IdentV>::empty()) =~= Seq::empty());
        assert(bare_idents(ids) =~= Seq::empty());
    } else {
        let rest = ids.drop_first();
        let mt = more_idents_tokens(rest);
        let head = seq![TokenV::Comma, TokenV::Id(ids[0].name)];
        assert(more_idents_tokens(ids) == head + mt);
        lemma_spells_split(ts, j, head, mt);
        lemma_spells_at(ts, j, head, 0);
        lemma_spells_at(ts, j, head, 1);
        lemma_idents_after_complete(ts, eoi, j + 2, rest);
        let c2 = ident_rule(ts, eoi, j + 1)->Ok_0.0;
        let r2 = idents_after(ts, eoi, j + 2)->Ok_0.0;
        assert(bare_idents(seq![c2] + r2) =~= seq![bare_ident(c2)] + bare_idents(r2));
        assert(bare_idents(ids) =~= seq![bare_ident(ids[0])] + bare_idents(rest));
    }
}

/// What may follow an index item: a comma or the closing brace.
pub open spec fn after_item(ts: Seq<(TokenV, Span)>, j: int) -> bool {
    tok(ts, j) == Some(TokenV::Comma) || tok(ts, j) == Some(TokenV::RightBrace)
}

proof fn lemma_item_complete(ts: Seq<(TokenV, Span)>, eoi: usize, i: int, x: IndexV)
    requires
        index_well_formed(x),
        spells_at(ts, i, item_tokens(x)),
    ensures
        index_item_rule(ts, eoi, i) is Ok,
        index_item_rule(ts, eoi, i)->Ok_0.1 == i + item_tokens(x).len(),
        bare_index(index_item_rule(ts, eoi, i)->Ok_0.0) == bare_index(x),
{
    let w = item_tokens(x);
    lemma_spells_at(ts, i, w, 0);
    match x {
        IndexV::Single(id, _) => {},
        IndexV::Composite(ids, _) => {
            let rest = ids.drop_first();
            let mt = more_idents_tokens(rest);
            let head = seq![TokenV::LeftParen, TokenV::Id(ids[0].name)];
            assert(w == head + mt + seq![TokenV::RightParen]);
            lemma_spells_split(ts, i, head + mt, seq![TokenV::RightParen]);
            lemma_spells_split(ts, i, head, mt);
            lemma_spells_at(ts, i, head, 1);
            lemma_spells_at(ts, i + 2 + mt.len(), seq![TokenV::RightParen], 0);
            let rest2 = rest.drop_first();
            let mt2 = more_idents_tokens(rest2);
            let head2 = seq![TokenV::Comma, TokenV::Id(rest[0].name)];
            assert(mt == head2 + mt2);
            lemma_spells_split(ts, i + 2, head2, mt2);
            lemma_spells_at(ts, i + 2, head2, 0);
            lemma_spells_at(ts, i + 2, head2, 1);
            lemma_idents_after_complete(ts, eoi, i + 4, rest2);
            let first = ident_rule(ts, eoi, i + 1)->Ok_0.0;
            let second = ident_rule(ts, eoi, i + 3)->Ok_0.0;
            let r2 = idents_after(ts, eoi, i + 4)->Ok_0.0;
            assert(bare_idents(seq![first, second] + r2) =~= seq![bare_ident(first), bare_ident(second)] + bare_idents(r2));
            assert(bare_idents(ids) =~= seq![bare_ident(ids[0]), bare_ident(rest[0])] + bare_idents(rest2));
        },
    }
}

proof fn lemma_items_after_complete(ts: Seq<(TokenV, Span)>, eoi: usize, j: int, xs: Seq<IndexV>)
    requires
        forall|k: int| 0 <= k < xs.len() ==> index_well_formed(#[trigger] xs[k]),
        spells_at(ts, j, more_items_tokens(xs)),
        tok(ts, j + more_items_tokens(xs).len()) == Some(TokenV::RightBrace),
    ensures
        items_after(ts, eoi, j) is Ok,
        items_after(ts, eoi, j)->Ok_0.1 == j + more_items_tokens(xs).len(),
        bare_indexes(items_after(ts, eoi, j)->Ok_0.0) == bare_indexes(xs),
    decreases xs.len(),
{
    if xs.len() == 0 {
        assert(bare_indexes(Seq::<IndexV>::empty()) =~= Seq::empty());
        assert(bare_indexes(xs) =~= Seq::empty());
    } else {
        let it = item_tokens(xs[0]);
        let rest = xs.drop_first();
        let mt = more_items_tokens(rest);
        assert(more_items_tokens(xs) == seq![TokenV::Comma] + it + mt);
        lemma_spells_split(ts, j, seq![TokenV::Comma] + it, mt);
        lemma_spells_split(ts, j, seq![TokenV::Comma], it);
        lemma_spells_at(ts, j, seq![TokenV::Comma], 0);
        let k = j + 1 + it.len();
        assert(index_well_formed(xs[0]));
        assert forall|q: int| 0 <= q < rest.len() implies index_well_formed(#[trigger] rest[q]) by {
            assert(rest[q] == xs[q + 1]);
        }
        lemma_item_complete(ts, eoi, j + 1, xs[0]);
        lemma_items_after_complete(ts, eoi, k, rest);
        let c2 = index_item_rule(ts, eoi, j + 1)->Ok_0.0;
        let r2 = items_after(ts, eoi, k)->Ok_0.0;
        assert(bare_indexes(seq![c2] + r2) =~= seq![bare_index(c2)] + bare_indexes(r2));
        assert(bare_indexes(xs) =~= seq![bare_index(xs[0])] + bare_indexes(rest));
    }
}

proof fn lemma_index_section_complete(ts: Seq<(TokenV, Span)>, eoi: usize, i: int, v: Seq<IndexV>)
    requires
        v.len() >= 1,
        forall|k: int| 0 <= k < v.len() ==> index_well_formed(#[trigger] v[k]),
        spells_at(ts, i, indexes_tokens(Some(v))),
    ensures
        index_section_rule(ts, eoi, i) is Ok,
        index_section_rule(ts, eoi, i)->Ok_0.1 == i + indexes_tokens(Some(v)).len(),
        bare_indexes(index_section_rule(ts, eoi, i)->Ok_0.0) == bare_indexes(v),
{
    let head = seq![TokenV::Indexes, TokenV::LeftBrace];
    let it = item_tokens(v[0]);
    let rest = v.drop_first();
    let mt = more_items_tokens(rest);
    let tail = seq![TokenV::RightBrace];
    assert(indexes_tokens(Some(v)) == head + it + mt + tail);
    lemma_spells_split(ts, i, head + it + mt, tail);
    lemma_spells_split(ts, i, head + it, mt);
    lemma_spells_split(ts, i, head, it);
    lemma_spells_at(ts, i, head, 0);
    lemma_spells_at(ts, i, head, 1);
    let k = i + 2 + it.len();
    lemma_spells_at(ts, k + mt.len(), tail, 0);
    assert(index_well_formed(v[0]));
    assert forall|q: int| 0 <= q < rest.len() implies index_well_formed(#[trigger] rest[q]) by {
        assert(rest[q] == v[q + 1]);
    }
    lemma_item_complete(ts, eoi, i + 2, v[0]);
    if rest.len() > 0 {
        assert(mt == seq![TokenV::Comma] + item_tokens(rest[0]) + more_items_tokens(rest.drop_first()));
        lemma_spells_at(ts, k, mt, 0);
    }
    lemma_items_after_complete(ts, eoi, k, rest);
    let c2 = index_item_rule(ts, eoi, i + 2)->Ok_0.0;
    let r2 = items_after(ts, eoi, k)->Ok_0.0;
    assert(bare_indexes(seq![c2] + r2) =~= seq![bare_index(c2)] + bare_indexes(r2));
    assert(bare_indexes(v) =~= seq![bare_index(v[0])] + bare_indexes(rest));
}

#[verifier::rlimit(100)]
proof fn lemma_table_complete(ts: Seq<(TokenV, Span)>, eoi: usize, i: int, t: TableV)
    requires
        table_well_formed(t),
        spells_at(ts, i, table_tokens(t)),
        tok(ts, i + table_tokens(t).len()) != Some(TokenV::Indexes),
    ensures
        table_rule(ts, eoi, i) is Ok,
        table_rule(ts, eoi, i)->Ok_0.1 == i + table_tokens(t).len(),
        bare_table(table_rule(ts, eoi, i)->Ok_0.0) == bare_table(t),
{
    reveal(table_rule);
    let a = if t.is_abstract {
        seq![TokenV::Abstract]
    } else {
        Seq::empty()
    };
    let tt = seq![TokenV::Table, TokenV::Id(t.id.name)];
    let e = match t.extended_by {
        Some(p) => seq![TokenV::Extends, TokenV::Id(p.name)],
        None => Seq::empty(),
    };
    let lb = seq![TokenV::LeftBrace];
    let cm = column_tokens(t.columns[0]) + more_columns_tokens(t.columns.drop_first());
    let x = indexes_tokens(t.indexes);
    let rb = seq![TokenV::RightBrace];
    let w = table_tokens(t);
    assert(w == a + tt + e + lb + cm + x + rb) by {
        assert(w =~= a + tt + e + lb + cm + x + rb);
    }
    lemma_spells_split(ts, i, a + tt + e + lb + cm + x, rb);
    lemma_spells_split(ts, i, a + tt + e + lb + cm, x);
    lemma_spells_split(ts, i, a + tt + e + lb, cm);
    lemma_spells_split(ts, i, a + tt + e, lb);
    lemma_spells_split(ts, i, a + tt, e);
    lemma_spells_split(ts, i, a, tt);
    let i1 = i + a.len();
    let i3 = i1 + 2;
    let i4 = i3 + e.len();
    let i5 = i4 + 1;
    let i6 = i5 + cm.len();
    let i7 = i6 + x.len();
    lemma_spells_at(ts, i1, tt, 0);
    lemma_spells_at(ts, i1, tt, 1);
    if t.is_abstract {
        lemma_spells_at(ts, i, a, 0);
    }
    lemma_spells_at(ts, i4, lb, 0);
    if e.len() > 0 {
        lemma_spells_at(ts, i3, e, 0);
        lemma_spells_at(ts, i3, e, 1);
    }
    lemma_spells_at(ts, i7, rb, 0);
    if x.len() > 0 {
        lemma_spells_at(ts, i6, x, 0);
    }
    lemma_columns_complete(ts, eoi, i5, t.columns);
    if let Some(v) = t.indexes {
        lemma_index_section_complete(ts, eoi, i6, v);
    }
    let cols = columns_rule(ts, eoi, i5)->Ok_0.0;
    assert(bare_columns(cols) == bare_columns(t.columns));
}

proof fn lemma_tables_tokens_first(tabs: Seq<TableV>)
    requires
        tabs.len() >= 1,
    ensures
        tables_tokens(tabs).len() >= 1,
        tables_tokens(tabs)[0] == TokenV::Abstract || tables_tokens(tabs)[0] == TokenV::Table,
{
    let t = tabs[0];
    assert(tables_tokens(tabs) == table_tokens(t) + tables_tokens(tabs.drop_first()));
    if t.is_abstract {
        assert(table_tokens(t)[0] == TokenV::Abstract);
    } else {
        assert(table_tokens(t)[0] == TokenV::Table);
    }
}

/// After a table comes another table or the end of the input.
proof fn lemma_after_table(ts: Seq<(TokenV, Span)>, k: int, rest: Seq<TableV>)
    requires
        spells_at(ts, k, tables_tokens(rest)),
        k + tables_tokens(rest).len() == ts.len(),
    ensures
        tok(ts, k) != Some(TokenV::Indexes),
{
    if rest.len() > 0 {
        lemma_tables_tokens_first(rest);
        lemma_spells_at(ts, k, tables_tokens(rest), 0);
    } else {
        assert(tables_tokens(rest).len() == 0);
    }
}

proof fn lemma_tables_after_complete(ts: Seq<(TokenV, Span)>, eoi: usize, j: int, tabs: Seq<TableV>)
    requires
        forall|k: int| 0 <= k < tabs.len() ==> table_well_formed(#[trigger] tabs[k]),
        spells_at(ts, j, tables_tokens(tabs)),
        j + tables_tokens(tabs).len() == ts.len(),
    ensures
        tables_after(ts, eoi, j) is Ok,
        bare_tables(tables_after(ts, eoi, j)->Ok_0.0) == bare_tables(tabs),
    decreases tabs.len(),
{
    if tabs.len() == 0 {
        assert(bare_tables(Seq::<TableV>::empty()) =~= Seq::empty());
        assert(bare_tables(tabs) =~= Seq::empty());
    } else {
        let tt = table_tokens(tabs[0]);
        let rest = tabs.drop_first();
        assert(tables_tokens(tabs) == tt + tables_tokens(rest));
        lemma_spells_split(ts, j, tt, tables_tokens(rest));
        assert(table_well_formed(tabs[0]));
        assert forall|q: int| 0 <= q < rest.len() implies table_well_formed(#[trigger] rest[q]) by {
            assert(rest[q] == tabs[q + 1]);
        }
        let k = j + tt.len();
        lemma_after_table(ts, k, rest);
        lemma_table_complete(ts, eoi, j, tabs[0]);
        lemma_tables_after_complete(ts, eoi, k, rest);
        let c2 = table_rule(ts, eoi, j)->Ok_0.0;
        let r2 = tables_after(ts, eoi, k)->Ok_0.0;
        assert(bare_tables(seq![c2] + r2) =~= seq![bare_table(c2)] + bare_tables(r2));
        assert(bare_tables(tabs) =~= seq![bare_table(tabs[0])] + bare_tables(rest));
    }
}

/// Round trip: a well-formed schema, spelled out as tokens (at any positions),
/// parses back to the same schema, its tables, columns, references and
/// indexes, up to source positions.
pub proof fn lemma_round_trip(s: SchemaV, ts: Seq<(TokenV, Span)>, eoi: usize)
    requires
        schema_well_formed(s),
        ts.len() == schema_tokens(s).len(),
        forall|k: int| 0 <= k < ts.len() ==> #[trigger] ts[k].0 == schema_tokens(s)[k],
    ensures
        schema_rule(s.name, ts, eoi) is Ok,
        bare_schema(schema_rule(s.name, ts, eoi)->Ok_0) == bare_schema(s),
{
    let tabs = s.tables;
    assert(spells_at(ts, 0, tables_tokens(tabs))) by {
        assert forall|k: int| 0 <= k < tables_tokens(tabs).len() implies #[trigger] ts[0 + k].0 == tables_tokens(tabs)[k] by {
            assert(ts[k].0 == schema_tokens(s)[k]);
        }
    }
    let tt = table_tokens(tabs[0]);
    let rest = tabs.drop_first();
    assert(tables_tokens(tabs) == tt + tables_tokens(rest));
    lemma_spells_split(ts, 0, tt, tables_tokens(rest));
    assert(table_well_formed(tabs[0]));
    assert forall|q: int| 0 <= q < rest.len() implies table_well_formed(#[trigger] rest[q]) by {
        assert(rest[q] == tabs[q + 1]);
    }
    lemma_after_table(ts, tt.len() as int, rest);
    lemma_table_complete(ts, eoi, 0, tabs[0]);
    lemma_tables_after_complete(ts, eoi, tt.len() as int, rest);
    let c2 = table_rule(ts, eoi, 0)->Ok_0.0;
    let r2 = tables_after(ts, eoi, tt.len() as int)->Ok_0.0;
    assert(then_prefix(seq![c2], tables_after(ts, eoi, tt.len() as int)) is Ok);
    assert(bare_tables(seq![c2] + r2) =~= seq![bare_table(c2)] + bare_tables(r2));
    assert(bare_tables(tabs) =~= seq![bare_table(tabs[0])] + bare_tables(rest));
}

// ---- Spelling a schema out as tokens ----

pub open spec fn kinds(v: Seq<(Token, Span)>) -> Seq<TokenV> {
    v.map_values(|p: (Token, Span)| p.0@)
}

/// Appends a token; the `k`-th token gets the span `[k, k + 1)`.
fn push_token(out: &mut Vec<(Token, Span)>, t: Token)
    requires
        old(out)@.len() < usize::MAX,
    ensures
        kinds(final(out)@) == kinds(old(out)@).push(t@),
        final(out)@.len() == old(out)@.len() + 1,
{
    let k = out.len();
    let ghost before = out@;
    out.push((t, Span { start: k, end: k + 1 }));
    assert(kinds(out@) =~= kinds(before).push(t@));
}

fn push_ident(out: &mut Vec<(Token, Span)>, id: &Ident)
    requires
        old(out)@.len() < usize::MAX,
    ensures
        kinds(final(out)@) == kinds(old(out)@).push(TokenV::Id(id.name@)),
        final(out)@.len() == old(out)@.len() + 1,
{
    push_token(out, Token::Id(id.name.clone()));
}

/// The room that emitting needs: one token per step, and some to spare.
pub open spec fn room(out: Seq<(Token, Span)>, w: Seq<TokenV>) -> bool {
    out.len() + w.len() < usize::MAX
}

fn emit_reference(out: &mut Vec<(Token, Span)>, r: &ReferenceDef)
    requires
        room(old(out)@, reference_tokens(Some(r@))),
    ensures
        kinds(final(out)@) == kinds(old(out)@) + reference_tokens(Some(r@)),
        final(out)@.len() == old(out)@.len() + reference_tokens(Some(r@)).len(),
{
    let ghost k0 = kinds(out@);
    push_token(out, Token::LeftParen);
    push_token(out, Token::Ref);
    let op = match r.operator {
        RefOperator::OneToMany => Token::RefOneToMany,
        RefOperator::OneToOne => Token::RefOneToOne,
        RefOperator::ManyToMany => Token::RefManyToMany,
    };
    push_token(out, op);
    push_ident(out, &r.table);
    push_token(out, Token::Dot);
    push_ident(out, &r.column);
    push_token(out, Token::RightParen);
    assert(kinds(out@) =~= k0 + reference_tokens(Some(r@)));
}

fn emit_column(out: &mut Vec<(Token, Span)>, c: &ColumnDef)
    requires
        room(old(out)@, column_tokens(c@)),
    ensures
        kinds(final(out)@) == kinds(old(out)@) + column_tokens(c@),
        final(out)@.len() == old(out)@.len() + column_tokens(c@).len(),
{
    let ghost k0 = kinds(out@);
    push_ident(out, &c.id);
    push_token(out, Token::Colon);
    push_ident(out, &c.typ);
    match c.attribute {
        Some(ColumnAttribute::Primary) => push_token(out, Token::Primary),
        Some(ColumnAttribute::Unique) => push_token(out, Token::Unique),
        None => {},
    }
    let ghost k1 = kinds(out@);
    assert(k1 =~= k0 + seq![TokenV::Id(c.id.name@), TokenV::Colon, TokenV::Id(c.typ.name@)]
        + attribute_tokens(c.attribute));
    if let Some(r) = &c.reference {
        emit_reference(out, r);
    }
    assert(kinds(out@) =~= k0 + column_tokens(c@));
}

fn emit_columns(out: &mut Vec<(Token, Span)>, cs: &Vec<ColumnDef>)
    requires
        cs@.len() >= 1,
        room(old(out)@, column_tokens(columns_view(cs@)[0]) + more_columns_tokens(columns_view(cs@).drop_first())),
    ensures
        kinds(final(out)@) == kinds(old(out)@) + column_tokens(columns_view(cs@)[0]) + more_columns_tokens(
            columns_view(cs@).drop_first(),
        ),
        final(out)@.len() == old(out)@.len() + column_tokens(columns_view(cs@)[0]).len() + more_columns_tokens(
            columns_view(cs@).drop_first(),
        ).len(),
{
    let ghost v = columns_view(cs@);
    let ghost target = kinds(out@) + column_tokens(v[0]) + more_columns_tokens(v.drop_first());
    let ghost limit = out@.len() + column_tokens(v[0]).len() + more_columns_tokens(v.drop_first()).len();
    emit_column(out, &cs[0]);
    let mut c: usize = 1;
    assert(v.drop_first() =~= v.subrange(1, v.len() as int));
    while c < cs.len()
        invariant
            v == columns_view(cs@),
            1 <= c <= cs@.len(),
            kinds(out@) + more_columns_tokens(v.subrange(c as int, v.len() as int)) == target,
            out@.len() + more_columns_tokens(v.subrange(c as int, v.len() as int)).len() == limit,
            limit < usize::MAX,
        decreases cs@.len() - c,
    {
        let ghost rest = v.subrange(c as int, v.len() as int);
        assert(rest.drop_first() =~= v.subrange(c + 1, v.len() as int));
        assert(rest[0] == cs@[c as int]@);
        assert(more_columns_tokens(rest) == seq![TokenV::Comma] + column_tokens(rest[0]) + more_columns_tokens(rest.drop_first()));
        let ghost k0 = kinds(out@);
        push_token(out, Token::Comma);
        emit_column(out, &cs[c]);
        assert(kinds(out@) + more_columns_tokens(rest.drop_first()) =~= k0 + more_columns_tokens(rest));
        c = c + 1;
    }
    assert(v.subrange(c as int, v.len() as int) =~= Seq::<ColumnV>::empty());
    assert(kinds(out@) =~= target);
}

fn emit_item(out: &mut Vec<(Token, Span)>, x: &Index)
    requires
        index_well_formed(x@),
        room(old(out)@, item_tokens(x@)),
    ensures
        kinds(final(out)@) == kinds(old(out)@) + item_tokens(x@),
        final(out)@.len() == old(out)@.len() + item_tokens(x@).len(),
{
    let ghost k0 = kinds(out@);
    match x {
        Index::Single(id, _) => {
            push_ident(out, id);
            assert(kinds(out@) =~= k0 + item_tokens(x@));
        },
        Index::Composite(ids, _) => {
            let ghost v = idents_view(ids@);
            push_token(out, Token::LeftParen);
            push_ident(out, &ids[0]);
            let ghost limit = k0.len() + item_tokens(x@).len() - 1;
            let mut b: usize = 1;
            assert(v.drop_first() =~= v.subrange(1, v.len() as int));
            while b < ids.len()
                invariant
                    v == idents_view(ids@),
                    1 <= b <= ids@.len(),
                    kinds(out@) + more_idents_tokens(v.subrange(b as int, v.len() as int))
                        == k0 + seq![TokenV::LeftParen, TokenV::Id(v[0].name)] + more_idents_tokens(v.drop_first()),
                    out@.len() + more_idents_tokens(v.subrange(b as int, v.len() as int)).len() == limit,
                    limit < usize::MAX,
                decreases ids@.len() - b,
            {
                let ghost rest = v.subrange(b as int, v.len() as int);
                assert(rest.drop_first() =~= v.subrange(b + 1, v.len() as int));
                assert(rest[0] == ids@[b as int]@);
                let ghost k1 = kinds(out@);
                push_token(out, Token::Comma);
                push_ident(out, &ids[b]);
                assert(kinds(out@) + more_idents_tokens(rest.drop_first()) =~= k1 + more_idents_tokens(rest));
                b = b + 1;
            }
            assert(v.subrange(b as int, v.len() as int) =~= Seq::<IdentV>::empty());
            push_token(out, Token::RightParen);
            assert(kinds(out@) =~= k0 + item_tokens(x@));
        },
    }
}

fn emit_indexes(out: &mut Vec<(Token, Span)>, ix: &Vec<Index>)
    requires
        ix@.len() >= 1,
        forall|k: int| 0 <= k < ix@.len() ==> index_well_formed(#[trigger] indexes_view(ix@)[k]),
        room(old(out)@, indexes_tokens(Some(indexes_view(ix@)))),
    ensures
        kinds(final(out)@) == kinds(old(out)@) + indexes_tokens(Some(indexes_view(ix@))),
        final(out)@.len() == old(out)@.len() + indexes_tokens(Some(indexes_view(ix@))).len(),
{
    let ghost v = indexes_view(ix@);
    let ghost k0 = kinds(out@);
    let ghost limit = k0.len() + indexes_tokens(Some(v)).len() - 1;
    push_token(out, Token::Indexes);
    push_token(out, Token::LeftBrace);
    assert(index_well_formed(v[0]));
    emit_item(out, &ix[0]);
    let mut a: usize = 1;
    assert(v.drop_first() =~= v.subrange(1, v.len() as int));
    while a < ix.len()
        invariant
            v == indexes_view(ix@),
            forall|k: int| 0 <= k < ix@.len() ==> index_well_formed(#[trigger] v[k]),
            1 <= a <= ix@.len(),
            kinds(out@) + more_items_tokens(v.subrange(a as int, v.len() as int))
                == k0 + seq![TokenV::Indexes, TokenV::LeftBrace] + item_tokens(v[0]) + more_items_tokens(v.drop_first()),
            out@.len() + more_items_tokens(v.subrange(a as int, v.len() as int)).len() == limit,
            limit < usize::MAX,
        decreases ix@.len() - a,
    {
        let ghost rest = v.subrange(a as int, v.len() as int);
        assert(rest.drop_first() =~= v.subrange(a + 1, v.len() as int));
        assert(rest[0] == ix@[a as int]@);
        assert(index_well_formed(v[a as int]));
        let ghost k1 = kinds(out@);
        assert(more_items_tokens(rest) == seq![TokenV::Comma] + item_tokens(rest[0]) + more_items_tokens(rest.drop_first()));
        push_token(out, Token::Comma);
        emit_item(out, &ix[a]);
        assert(kinds(out@) + more_items_tokens(rest.drop_first()) =~= k1 + more_items_tokens(rest));
        a = a + 1;
    }
    assert(v.subrange(a as int, v.len() as int) =~= Seq::<IndexV>::empty());
    push_token(out, Token::RightBrace);
    assert(kinds(out@) =~= k0 + indexes_tokens(Some(v)));
}

#[verifier::rlimit(50)]
fn emit_table(out: &mut Vec<(Token, Span)>, t: &TableDef)
    requires
        table_well_formed(t@),
        room(old(out)@, table_tokens(t@)),
    ensures
        kinds(final(out)@) == kinds(old(out)@) + table_tokens(t@),
        final(out)@.len() == old(out)@.len() + table_tokens(t@).len(),
{
    let ghost k0 = kinds(out@);
    if t.is_abstract {
        push_token(out, Token::Abstract);
    }
    push_token(out, Token::Table);
    push_ident(out, &t.id);
    if let Some(p) = &t.extended_by {
        push_token(out, Token::Extends);
        push_ident(out, p);
    }
    push_token(out, Token::LeftBrace);
    emit_columns(out, &t.columns);
    if let Some(ix) = &t.indexes {
        emit_indexes(out, ix);
    }
    push_token(out, Token::RightBrace);
    assert(kinds(out@) =~= k0 + table_tokens(t@));
}

/// Spells a well-formed schema out as tokens, the `k`-th at span `[k, k + 1)`.
/// Parsing them gives the schema back, up to source positions.
pub fn to_tokens(schema: &Schema) -> (r: Vec<(Token, Span)>)
    requires
        schema_well_formed(schema@),
        schema_tokens(schema@).len() < usize::MAX,
    ensures
        kinds(r@) == schema_tokens(schema@),
        schema_rule(schema@.name, tokens_view(r@), r@.len() as usize) is Ok,
        bare_schema(schema_rule(schema@.name, tokens_view(r@), r@.len() as usize)->Ok_0) == bare_schema(schema@),
{
    let ghost v = tables_view(schema.tables@);
    let ghost target = schema_tokens(schema@);
    let mut out: Vec<(Token, Span)> = Vec::new();
    let mut i: usize = 0;
    assert(v.subrange(0, v.len() as int) =~= v);
    while i < schema.tables.len()
        invariant
            v == tables_view(schema.tables@),
            v == schema@.tables,
            target == schema_tokens(schema@),
            target.len() < usize::MAX,
            forall|k: int| 0 <= k < v.len() ==> table_well_formed(#[trigger] v[k]),
            i <= v.len(),
            kinds(out@) + tables_tokens(v.subrange(i as int, v.len() as int)) == target,
        decreases v.len() - i,
    {
        let ghost rest = v.subrange(i as int, v.len() as int);
        assert(rest.drop_first() =~= v.subrange(i + 1, v.len() as int));
        assert(rest[0] == schema.tables@[i as int]@);
        assert(table_well_formed(v[i as int]));
        assert(tables_tokens(rest) == table_tokens(rest[0]) + tables_tokens(rest.drop_first()));
        let ghost k1 = kinds(out@);
        emit_table(&mut out, &schema.tables[i]);
        assert(kinds(out@) + tables_tokens(rest.drop_first()) =~= k1 + tables_tokens(rest));
        i = i + 1;
    }
    assert(v.subrange(i as int, v.len() as int) =~= Seq::<TableV>::empty());
    assert(kinds(out@) =~= target);
    proof {
        let ts = tokens_view(out@);
        assert forall|k: int| 0 <= k < ts.len() implies #[trigger] ts[k].0 == schema_tokens(schema@)[k] by {
            assert(ts[k].0 == kinds(out@)[k]);
        }
        lemma_round_trip(schema@, ts, out@.len() as usize);
    }
    out
}

// ---- Spelling a schema out as source text ----

/// How a token is written in source text.
pub open spec fn token_source(t: TokenV) -> Seq<char> {
    match t {
        TokenV::Error => "?"@,
        TokenV::Abstract => "abstract"@,
        TokenV::Table => "table"@,
        TokenV::Extends => "extends"@,
        TokenV::Id(n) => n,
        TokenV::LeftBrace => "{"@,
        TokenV::RightBrace => "}"@,
        TokenV::LeftParen => "("@,
        TokenV::RightParen => ")"@,
        TokenV::Primary => "primary"@,
        TokenV::Unique => "unique"@,
        TokenV::Ref => "ref"@,
        TokenV::RefOneToMany => "=>"@,
        TokenV::RefOneToOne => "=="@,
        TokenV::RefManyToMany => "<>"@,
        TokenV::Dot => "."@,
        TokenV::Comma => ","@,
        TokenV::Colon => ":"@,
        TokenV::Indexes => "indexes"@,
    }
}

/// Tokens written out, each followed by a space.
pub open spec fn source_of(toks: Seq<TokenV>) -> Seq<char>
    decreases toks.len(),
{
    if toks.len() == 0 {
        Seq::empty()
    } else {
        token_source(toks[0]) + seq![' '] + source_of(toks.drop_first())
    }
}

/// A name that reads back as an identifier: ASCII, starting with a letter,
/// then letters, digits and underscores, and no keyword.
pub open spec fn plain_name(n: Seq<char>) -> bool {
    &&& n.len() >= 1
    &&& forall|i: int| 0 <= i < n.len() ==> '\0' <= #[trigger] n[i] <= '\u{7f}'
    &&& is_letter(n[0] as u8)
    &&& forall|i: int| 0 <= i < n.len() ==> is_ident_byte(#[trigger] n[i] as u8)
    &&& keyword(n) is None
}

/// Every identifier among the tokens is a plain name, and none is an error.
pub open spec fn plain_tokens(toks: Seq<TokenV>) -> bool {
    forall|k: int|
        0 <= k < toks.len() ==> !((#[trigger] toks[k]) is Error) && (toks[k] is Id ==> plain_name(
            toks[k]->Id_0,
        ))
}

proof fn lemma_ident_run(b: Seq<u8>, a: int, c: int)
    requires
        0 <= a <= c < b.len(),
        forall|i: int| a <= i < c ==> is_ident_byte(#[trigger] b[i]),
        !is_ident_byte(b[c]),
    ensures
        ident_end(b, a) == c,
    decreases c - a,
{
    if a < c {
        lemma_ident_run(b, a + 1, c);
    }
}

proof fn lemma_word_at(b: Seq<u8>, p: int, w: Seq<char>)
    requires
        0 <= p,
        p + w.len() < b.len(),
        w.len() >= 1,
        forall|i: int| 0 <= i < w.len() ==> '\0' <= #[trigger] w[i] <= '\u{7f}',
        forall|i: int| 0 <= i < w.len() ==> b[p + i] == #[trigger] w[i] as u8,
        is_letter(w[0] as u8),
        forall|i: int| 0 <= i < w.len() ==> is_ident_byte(#[trigger] w[i] as u8),
        b[p + w.len()] == 32,
    ensures
        token_at(b, p) == (word_token(w), p + w.len()),
{
    assert(b[p + 0] == w[0] as u8);
    assert forall|i: int| p + 1 <= i < p + w.len() implies is_ident_byte(#[trigger] b[i]) by {
        assert(b[p + (i - p)] == w[i - p] as u8);
    }
    lemma_ident_run(b, p + 1, p + w.len());
    assert forall|i: int| 0 <= i < w.len() implies #[trigger] text_of(b, p, p + w.len())[i] == w[i] by {
        assert(b[p + i] == w[i] as u8);
        assert((w[i] as u8) as u32 == w[i] as u32);
        vstd::utf8::char_u32_cast(w[i], w[i] as u32);
    }
    assert(text_of(b, p, p + w.len()) =~= w);
}

proof fn lemma_token_source_ascii(t: TokenV)
    requires
        !(t is Error),
        t is Id ==> plain_name(t->Id_0),
    ensures
        token_source(t).len() >= 1,
        forall|i: int| 0 <= i < token_source(t).len() ==> '\0' <= #[trigger] token_source(t)[i] <= '\u{7f}',
{
    reveal_strlit("?");
    reveal_strlit("abstract");
    reveal_strlit("table");
    reveal_strlit("extends");
    reveal_strlit("{");
    reveal_strlit("}");
    reveal_strlit("(");
    reveal_strlit(")");
    reveal_strlit("primary");
    reveal_strlit("unique");
    reveal_strlit("ref");
    reveal_strlit("=>");
    reveal_strlit("==");
    reveal_strlit("<>");
    reveal_strlit(".");
    reveal_strlit(",");
    reveal_strlit(":");
    reveal_strlit("indexes");
}

proof fn lemma_source_ascii(toks: Seq<TokenV>)
    requires
        plain_tokens(toks),
    ensures
        vstd::utf8::is_ascii_chars(source_of(toks)),
    decreases toks.len(),
{
    if toks.len() > 0 {
        let rest = toks.drop_first();
        assert forall|k: int| 0 <= k < rest.len() implies !((#[trigger] rest[k]) is Error) && (rest[k] is Id
            ==> plain_name(rest[k]->Id_0)) by {
            assert(rest[k] == toks[k + 1]);
        }
        lemma_source_ascii(rest);
        assert(!(toks[0] is Error));
        lemma_token_source_ascii(toks[0]);
        let w = token_source(toks[0]);
        let src = source_of(toks);
        assert(src == w + seq![' '] + source_of(rest));
        assert forall|i: int| 0 <= i < src.len() implies '\0' <= #[trigger] src[i] <= '\u{7f}' by {
            if i < w.len() {
                assert(src[i] == w[i]);
            } else if i == w.len() {
                assert(src[i] == ' ');
            } else {
                assert(src[i] == source_of(rest)[i - w.len() - 1]);
            }
        }
    }
}

proof fn lemma_token_source_at(b: Seq<u8>, p: int, t: TokenV)
    requires
        !(t is Error),
        t is Id ==> plain_name(t->Id_0),
        0 <= p,
        p + token_source(t).len() < b.len(),
        forall|i: int| 0 <= i < token_source(t).len() ==> b[p + i] == #[trigger] token_source(t)[i] as u8,
        b[p + token_source(t).len()] == 32,
    ensures
        token_at(b, p) == (t, p + token_source(t).len()),
        !is_space(b[p]),
{
    reveal_strlit("?");
    reveal_strlit("abstract");
    reveal_strlit("table");
    reveal_strlit("extends");
    reveal_strlit("{");
    reveal_strlit("}");
    reveal_strlit("(");
    reveal_strlit(")");
    reveal_strlit("primary");
    reveal_strlit("unique");
    reveal_strlit("ref");
    reveal_strlit("=>");
    reveal_strlit("==");
    reveal_strlit("<>");
    reveal_strlit(".");
    reveal_strlit(",");
    reveal_strlit(":");
    reveal_strlit("indexes");
    let w = token_source(t);
    lemma_token_source_ascii(t);
    assert(b[p + 0] == w[0] as u8);
    match t {
        TokenV::Id(n) => {
            lemma_word_at(b, p, n);
        },
        TokenV::Abstract | TokenV::Table | TokenV::Extends | TokenV::Primary | TokenV::Unique
        | TokenV::Ref | TokenV::Indexes => {
            assert forall|i: int| 0 <= i < w.len() implies is_ident_byte(#[trigger] w[i] as u8) by {}
            lemma_word_at(b, p, w);
        },
        TokenV::RefOneToMany | TokenV::RefOneToOne | TokenV::RefManyToMany => {
            assert(b[p + 1] == w[1] as u8);
        },
        _ => {},
    }
}

proof fn lemma_lex_source(b: Seq<u8>, p: int, toks: Seq<TokenV>)
    requires
        plain_tokens(toks),
        0 <= p,
        b.len() == p + source_of(toks).len(),
        forall|i: int| 0 <= i < source_of(toks).len() ==> b[p + i] == #[trigger] source_of(toks)[i] as u8,
    ensures
        lex_from(b, p).map_values(|x: (TokenV, Span)| x.0) == toks,
    decreases toks.len(),
{
    if toks.len() == 0 {
        assert(lex_from(b, p) =~= Seq::empty());
        assert(lex_from(b, p).map_values(|x: (TokenV, Span)| x.0) =~= toks);
    } else {
        let t = toks[0];
        let rest = toks.drop_first();
        let w = token_source(t);
        let src = source_of(toks);
        assert(src == w + seq![' '] + source_of(rest));
        assert(!(toks[0] is Error));
        let q = p + w.len();
        assert forall|i: int| 0 <= i < w.len() implies b[p + i] == #[trigger] w[i] as u8 by {
            assert(src[i] == w[i]);
        }
        assert(src[w.len() as int] == ' ');
        assert(b[q] == 32);
        lemma_token_source_at(b, p, t);
        assert(skip_spaces(b, p) == p);
        assert(skip_spaces(b, q) == skip_spaces(b, q + 1));
        assert(lex_from(b, q) == lex_from(b, q + 1));
        assert forall|k: int| 0 <= k < rest.len() implies !((#[trigger] rest[k]) is Error) && (rest[k] is Id
            ==> plain_name(rest[k]->Id_0)) by {
            assert(rest[k] == toks[k + 1]);
        }
        assert forall|i: int| 0 <= i < source_of(rest).len() implies b[q + 1 + i] == #[trigger] source_of(rest)[i] as u8 by {
            assert(src[w.len() + 1 + i] == source_of(rest)[i]);
            assert(b[p + (w.len() + 1 + i)] == src[w.len() + 1 + i] as u8);
        }
        lemma_lex_source(b, q + 1, rest);
        let sp = Span { start: p as usize, end: q as usize };
        assert(lex_from(b, p) == seq![(t, sp)] + lex_from(b, q));
        assert(lex_from(b, p).map_values(|x: (TokenV, Span)| x.0) =~= seq![t] + lex_from(b, q + 1).map_values(
            |x: (TokenV, Span)| x.0,
        ));
        assert(toks =~= seq![t] + rest);
    }
}

/// Round trip through source text: a well-formed schema whose names are
/// plain, written out as text, parses back to the same schema, up to source
/// positions.
pub proof fn lemma_source_round_trip(s: SchemaV)
    requires
        schema_well_formed(s),
        plain_tokens(schema_tokens(s)),
    ensures
        parse_spec(s.name, source_of(schema_tokens(s))) is Ok,
        bare_schema(parse_spec(s.name, source_of(schema_tokens(s)))->Ok_0) == bare_schema(s),
{
    let toks = schema_tokens(s);
    let src = source_of(toks);
    lemma_source_ascii(toks);
    vstd::utf8::is_ascii_chars_encode_utf8(src);
    let b = vstd::utf8::encode_utf8(src);
    assert forall|i: int| 0 <= i < src.len() implies b[0 + i] == #[trigger] src[i] as u8 by {}
    lemma_lex_source(b, 0, toks);
    let ts = lex(src);
    assert(ts.len() == toks.len());
    assert forall|k: int| 0 <= k < ts.len() implies #[trigger] ts[k].0 == schema_tokens(s)[k] by {
        assert(ts.map_values(|x: (TokenV, Span)| x.0)[k] == ts[k].0);
    }
    lemma_round_trip(s, ts, b.len() as usize);
}

impl Token {
    /// How the token is written in source text.
    pub fn source_text(&self) -> (r: String)
        ensures
            r@ == token_source(self@),
    {
        match self {
            Token::Error => String::from_str("?"),
            Token::Abstract => String::from_str("abstract"),
            Token::Table => String::from_str("table"),
            Token::Extends => String::from_str("extends"),
            Token::Id(n) => n.clone(),
            Token::LeftBrace => String::from_str("{"),
            Token::RightBrace => String::from_str("}"),
            Token::LeftParen => String::from_str("("),
            Token::RightParen => String::from_str(")"),
            Token::Primary => String::from_str("primary"),
            Token::Unique => String::from_str("unique"),
            Token::Ref => String::from_str("ref"),
            Token::RefOneToMany => String::from_str("=>"),
            Token::RefOneToOne => String::from_str("=="),
            Token::RefManyToMany => String::from_str("<>"),
            Token::Dot => String::from_str("."),
            Token::Comma => String::from_str(","),
            Token::Colon => String::from_str(":"),
            Token::Indexes => String::from_str("indexes"),
        }
    }
}

/// Writes tokens out, each followed by a space.
pub fn tokens_source(ts: &Vec<(Token, Span)>) -> (r: String)
    ensures
        r@ == source_of(kinds(ts@)),
{
    let ghost k = kinds(ts@);
    let mut out = String::new();
    let mut i: usize = 0;
    proof {
        reveal_strlit(" ");
    }
    assert(k.subrange(0, k.len() as int) =~= k);
    while i < ts.len()
        invariant
            k == kinds(ts@),
            i <= ts@.len(),
            " "@ == seq![' '],
            out@ + source_of(k.subrange(i as int, k.len() as int)) == source_of(k),
        decreases ts@.len() - i,
    {
        let ghost rest = k.subrange(i as int, k.len() as int);
        assert(rest.drop_first() =~= k.subrange(i + 1, k.len() as int));
        assert(rest[0] == ts@[i as int].0@);
        let ghost before = out@;
        let text = ts[i].0.source_text();
        out.append(text.as_str());
        out.append(" ");
        assert(out@ + source_of(rest.drop_first()) =~= before + source_of(rest));
        i = i + 1;
    }
    assert(k.subrange(i as int, k.len() as int) =~= Seq::<TokenV>::empty());
    assert(out@ =~= source_of(k));
    out
}

/// Writes a well-formed schema out as source text. When its names are plain,
/// parsing the text gives the schema back, up to source positions.
pub fn to_source(schema: &Schema) -> (r: String)
    requires
        schema_well_formed(schema@),
        schema_tokens(schema@).len() < usize::MAX,
    ensures
        r@ == source_of(schema_tokens(schema@)),
        plain_tokens(schema_tokens(schema@)) ==> parse_spec(schema@.name, r@) is Ok && bare_schema(
            parse_spec(schema@.name, r@)->Ok_0,
        ) == bare_schema(schema@),
{
    let toks = to_tokens(schema);
    let r = tokens_source(&toks);
    proof {
        if plain_tokens(schema_tokens(schema@)) {
            lemma_source_round_trip(schema@);
        }
    }
    r
}

// ---- What the parser builds is well formed ----

proof fn lemma_item_well_formed(ts: Seq<(TokenV, Span)>, eoi: usize, i: int)
    requires
        index_item_rule(ts, eoi, i) is Ok,
    ensures
        index_well_formed(index_item_rule(ts, eoi, i)->Ok_0.0),
{
}

proof fn lemma_items_after_well_formed(ts: Seq<(TokenV, Span)>, eoi: usize, j: int)
    requires
        0 <= j,
        items_after(ts, eoi, j) is Ok,
    ensures
        forall|k: int|
            0 <= k < items_after(ts, eoi, j)->Ok_0.0.len() ==> index_well_formed(
                #[trigger] items_after(ts, eoi, j)->Ok_0.0[k],
            ),
    decreases ts.len() - j,
{
    if tok(ts, j) == Some(TokenV::Comma) {
        crate::parser::lemma_index_item_advances(ts, eoi, j + 1);
        let (c, k) = index_item_rule(ts, eoi, j + 1)->Ok_0;
        lemma_item_well_formed(ts, eoi, j + 1);
        lemma_items_after_well_formed(ts, eoi, k);
        let r = items_after(ts, eoi, k)->Ok_0.0;
        assert forall|q: int| 0 <= q < (seq![c] + r).len() implies index_well_formed(#[trigger] (seq![c] + r)[q]) by {
            if q > 0 {
                assert((seq![c] + r)[q] == r[q - 1]);
            }
        }
    }
}

proof fn lemma_table_well_formed(ts: Seq<(TokenV, Span)>, eoi: usize, i: int)
    requires
        0 <= i,
        table_rule(ts, eoi, i) is Ok,
    ensures
        table_well_formed(table_rule(ts, eoi, i)->Ok_0.0),
{
    reveal(table_rule);
    let is_abstract = tok(ts, i) == Some(TokenV::Abstract);
    let i1 = if is_abstract { i + 1 } else { i };
    let i3 = i1 + 2;
    let i4 = if tok(ts, i3) == Some(TokenV::Extends) { i3 + 2 } else { i3 };
    let i5 = i4 + 1;
    let (cols, i6) = columns_rule(ts, eoi, i5)->Ok_0;
    if tok(ts, i6) == Some(TokenV::Indexes) {
        lemma_section_well_formed(ts, eoi, i6);
    } else if tok(ts, i6 + 1) == Some(TokenV::Indexes) && index_section_rule(ts, eoi, i6 + 1) is Ok {
        lemma_section_well_formed(ts, eoi, i6 + 1);
    }
}

proof fn lemma_section_well_formed(ts: Seq<(TokenV, Span)>, eoi: usize, j: int)
    requires
        0 <= j,
        index_section_rule(ts, eoi, j) is Ok,
    ensures
        index_section_rule(ts, eoi, j)->Ok_0.0.len() >= 1,
        forall|k: int|
            0 <= k < index_section_rule(ts, eoi, j)->Ok_0.0.len() ==> index_well_formed(
                #[trigger] index_section_rule(ts, eoi, j)->Ok_0.0[k],
            ),
{
    let i1x = j + 2;
    crate::parser::lemma_index_item_advances(ts, eoi, i1x);
    let (first, i2x) = index_item_rule(ts, eoi, i1x)->Ok_0;
    lemma_item_well_formed(ts, eoi, i1x);
    lemma_items_after_well_formed(ts, eoi, i2x);
    let r = items_after(ts, eoi, i2x)->Ok_0.0;
    assert forall|q: int| 0 <= q < (seq![first] + r).len() implies index_well_formed(#[trigger] (seq![first] + r)[q]) by {
        if q > 0 {
            assert((seq![first] + r)[q] == r[q - 1]);
        }
    }
}

proof fn lemma_tables_after_well_formed(ts: Seq<(TokenV, Span)>, eoi: usize, j: int)
    requires
        0 <= j,
        tables_after(ts, eoi, j) is Ok,
    ensures
        forall|k: int|
            0 <= k < tables_after(ts, eoi, j)->Ok_0.0.len() ==> table_well_formed(
                #[trigger] tables_after(ts, eoi, j)->Ok_0.0[k],
            ),
    decreases ts.len() - j,
{
    if 0 <= j < ts.len() {
        crate::parser::lemma_table_advances(ts, eoi, j);
        let (c, k) = table_rule(ts, eoi, j)->Ok_0;
        lemma_table_well_formed(ts, eoi, j);
        lemma_tables_after_well_formed(ts, eoi, k);
        let r = tables_after(ts, eoi, k)->Ok_0.0;
        assert forall|q: int| 0 <= q < (seq![c] + r).len() implies table_well_formed(#[trigger] (seq![c] + r)[q]) by {
            if q > 0 {
                assert((seq![c] + r)[q] == r[q - 1]);
            }
        }
    }
}

/// Every schema the parser builds is well formed.
pub proof fn lemma_parsed_well_formed(name: Seq<char>, src: Seq<char>)
    requires
        parse_spec(name, src) is Ok,
    ensures
        schema_well_formed(parse_spec(name, src)->Ok_0),
{
    let ts = lex(src);
    let eoi = vstd::utf8::encode_utf8(src).len() as usize;
    crate::parser::lemma_table_advances(ts, eoi, 0);
    let (t, j) = table_rule(ts, eoi, 0)->Ok_0;
    lemma_table_well_formed(ts, eoi, 0);
    lemma_tables_after_well_formed(ts, eoi, j);
    let r = tables_after(ts, eoi, j)->Ok_0.0;
    assert forall|q: int| 0 <= q < (seq![t] + r).len() implies table_well_formed(#[trigger] (seq![t] + r)[q]) by {
        if q > 0 {
            assert((seq![t] + r)[q] == r[q - 1]);
        }
    }
}

// ---- Names that the lexer reads are plain ----

/// Every identifier token is a plain name.
pub open spec fn ids_plain(ts: Seq<(TokenV, Span)>) -> bool {
    forall|k: int| 0 <= k < ts.len() && (#[trigger] ts[k]).0 is Id ==> plain_name(ts[k].0->Id_0)
}

proof fn lemma_byte_char(x: u8)
    requires
        x < 128,
    ensures
        '\0' <= (x as char) <= '\u{7f}',
        (x as char) as u8 == x,
{
    assert((x as char) as u32 == x as u32);
}

proof fn lemma_word_plain(b: Seq<u8>, s: int)
    requires
        0 <= s < b.len(),
        is_letter(b[s]),
        keyword(text_of(b, s, ident_end(b, s + 1))) is None,
    ensures
        plain_name(text_of(b, s, ident_end(b, s + 1))),
{
    let e = ident_end(b, s + 1);
    crate::lexer::lemma_ident_end_bounds(b, s + 1);
    let n = text_of(b, s, e);
    assert forall|i: int| 0 <= i < n.len() implies '\0' <= #[trigger] n[i] <= '\u{7f}' && is_ident_byte(n[i] as u8) by {
        assert(n[i] == b[s + i] as char);
        if i > 0 {
            assert(is_ident_byte(b[s + i]));
        }
        lemma_byte_char(b[s + i]);
    }
    assert(n[0] == b[s] as char);
    lemma_byte_char(b[s]);
}

proof fn lemma_lex_ids_plain(b: Seq<u8>, pos: int)
    requires
        0 <= pos <= b.len(),
    ensures
        ids_plain(lex_from(b, pos)),
    decreases b.len() - pos,
{
    crate::lexer::lemma_skip_spaces_bounds(b, pos);
    let s = skip_spaces(b, pos);
    if s < b.len() {
        let (t, e) = token_at(b, s);
        crate::lexer::lemma_token_at_bounds(b, s);
        lemma_lex_ids_plain(b, e);
        if t is Id {
            lemma_word_plain(b, s);
        }
        let l = lex_from(b, pos);
        let r = lex_from(b, e);
        assert(l == seq![(t, Span { start: s as usize, end: e as usize })] + r);
        assert forall|k: int| 0 <= k < l.len() && (#[trigger] l[k]).0 is Id implies plain_name(l[k].0->Id_0) by {
            if k > 0 {
                assert(l[k] == r[k - 1]);
            }
        }
    }
}

// ---- Names in a schema ----

pub open spec fn reference_plain(r: Option<ReferenceV>) -> bool {
    match r {
        Some(r) => plain_name(r.table.name) && plain_name(r.column.name),
        None => true,
    }
}

pub open spec fn column_plain(c: ColumnV) -> bool {
    plain_name(c.id.name) && plain_name(c.typ.name) && reference_plain(c.reference)
}

pub open spec fn idents_plain(v: Seq<IdentV>) -> bool {
    forall|k: int| 0 <= k < v.len() ==> plain_name(#[trigger] v[k].name)
}

pub open spec fn index_plain(x: IndexV) -> bool {
    match x {
        IndexV::Single(id, _) => plain_name(id.name),
        IndexV::Composite(ids, _) => idents_plain(ids),
    }
}

pub open spec fn table_plain(t: TableV) -> bool {
    &&& plain_name(t.id.name)
    &&& match t.extended_by {
        Some(p) => plain_name(p.name),
        None => true,
    }
    &&& forall|k: int| 0 <= k < t.columns.len() ==> column_plain(#[trigger] t.columns[k])
    &&& match t.indexes {
        Some(v) => forall|k: int| 0 <= k < v.len() ==> index_plain(#[trigger] v[k]),
        None => true,
    }
}

/// Every name in the schema is a plain name.
pub open spec fn schema_plain(s: SchemaV) -> bool {
    forall|k: int| 0 <= k < s.tables.len() ==> table_plain(#[trigger] s.tables[k])
}

proof fn lemma_plain_concat(a: Seq<TokenV>, b: Seq<TokenV>)
    requires
        plain_tokens(a),
        plain_tokens(b),
    ensures
        plain_tokens(a + b),
{
    assert forall|k: int| 0 <= k < (a + b).len() implies !((#[trigger] (a + b)[k]) is Error) && ((a + b)[k] is Id
        ==> plain_name((a + b)[k]->Id_0)) by {
        if k < a.len() {
            assert((a + b)[k] == a[k]);
        } else {
            assert((a + b)[k] == b[k - a.len()]);
        }
    }
}

proof fn lemma_column_tokens_plain(c: ColumnV)
    requires
        column_plain(c),
    ensures
        plain_tokens(column_tokens(c)),
{
    let head = seq![TokenV::Id(c.id.name), TokenV::Colon, TokenV::Id(c.typ.name)];
    assert(plain_tokens(head));
    assert(plain_tokens(attribute_tokens(c.attribute)));
    assert(plain_tokens(reference_tokens(c.reference)));
    lemma_plain_concat(head, attribute_tokens(c.attribute));
    lemma_plain_concat(head + attribute_tokens(c.attribute), reference_tokens(c.reference));
}

proof fn lemma_more_columns_plain(cs: Seq<ColumnV>)
    requires
        forall|k: int| 0 <= k < cs.len() ==> column_plain(#[trigger] cs[k]),
    ensures
        plain_tokens(more_columns_tokens(cs)),
    decreases cs.len(),
{
    if cs.len() > 0 {
        let rest = cs.drop_first();
        assert forall|k: int| 0 <= k < rest.len() implies column_plain(#[trigger] rest[k]) by {
            assert(rest[k] == cs[k + 1]);
        }
        lemma_more_columns_plain(rest);
        assert(column_plain(cs[0]));
        lemma_column_tokens_plain(cs[0]);
        assert(plain_tokens(seq![TokenV::Comma]));
        lemma_plain_concat(seq![TokenV::Comma], column_tokens(cs[0]));
        lemma_plain_concat(seq![TokenV::Comma] + column_tokens(cs[0]), more_columns_tokens(rest));
    }
}

proof fn lemma_more_idents_plain(ids: Seq<IdentV>)
    requires
        idents_plain(ids),
    ensures
        plain_tokens(more_idents_tokens(ids)),
    decreases ids.len(),
{
    if ids.len() > 0 {
        let rest = ids.drop_first();
        assert forall|k: int| 0 <= k < rest.len() implies plain_name(#[trigger] rest[k].name) by {
            assert(rest[k] == ids[k + 1]);
        }
        lemma_more_idents_plain(rest);
        assert(plain_name(ids[0].name));
        let head = seq![TokenV::Comma, TokenV::Id(ids[0].name)];
        assert(plain_tokens(head));
        lemma_plain_concat(head, more_idents_tokens(rest));
    }
}

proof fn lemma_item_tokens_plain(x: IndexV)
    requires
        index_plain(x),
        index_well_formed(x),
    ensures
        plain_tokens(item_tokens(x)),
{
    match x {
        IndexV::Single(id, _) => {
            assert(plain_tokens(seq![TokenV::Id(id.name)]));
        },
        IndexV::Composite(ids, _) => {
            assert(plain_name(ids[0].name));
            let head = seq![TokenV::LeftParen, TokenV::Id(ids[0].name)];
            assert(plain_tokens(head));
            let rest = ids.drop_first();
            assert forall|k: int| 0 <= k < rest.len() implies plain_name(#[trigger] rest[k].name) by {
                assert(rest[k] == ids[k + 1]);
            }
            lemma_more_idents_plain(rest);
            lemma_plain_concat(head, more_idents_tokens(rest));
            assert(plain_tokens(seq![TokenV::RightParen]));
            lemma_plain_concat(head + more_idents_tokens(rest), seq![TokenV::RightParen]);
        },
    }
}

proof fn lemma_more_items_plain(xs: Seq<IndexV>)
    requires
        forall|k: int| 0 <= k < xs.len() ==> index_plain(#[trigger] xs[k]) && index_well_formed(xs[k]),
    ensures
        plain_tokens(more_items_tokens(xs)),
    decreases xs.len(),
{
    if xs.len() > 0 {
        let rest = xs.drop_first();
        assert forall|k: int| 0 <= k < rest.len() implies index_plain(#[trigger] rest[k]) && index_well_formed(rest[k]) by {
            assert(rest[k] == xs[k + 1]);
        }
        lemma_more_items_plain(rest);
        assert(index_plain(xs[0]) && index_well_formed(xs[0]));
        lemma_item_tokens_plain(xs[0]);
        assert(plain_tokens(seq![TokenV::Comma]));
        lemma_plain_concat(seq![TokenV::Comma], item_tokens(xs[0]));
        lemma_plain_concat(seq![TokenV::Comma] + item_tokens(xs[0]), more_items_tokens(rest));
    }
}

proof fn lemma_table_tokens_plain(t: TableV)
    requires
        table_plain(t),
        table_well_formed(t),
    ensures
        plain_tokens(table_tokens(t)),
{
    let a = if t.is_abstract {
        seq![TokenV::Abstract]
    } else {
        Seq::empty()
    };
    let tt = seq![TokenV::Table, TokenV::Id(t.id.name)];
    let e = match t.extended_by {
        Some(p) => seq![TokenV::Extends, TokenV::Id(p.name)],
        None => Seq::empty(),
    };
    let lb = seq![TokenV::LeftBrace];
    let cm = column_tokens(t.columns[0]) + more_columns_tokens(t.columns.drop_first());
    let x = indexes_tokens(t.indexes);
    let rb = seq![TokenV::RightBrace];
    assert(table_tokens(t) =~= a + tt + e + lb + cm + x + rb);
    assert(plain_tokens(a));
    assert(plain_tokens(tt));
    assert(plain_tokens(e));
    assert(plain_tokens(lb));
    assert(plain_tokens(rb));
    assert(column_plain(t.columns[0]));
    lemma_column_tokens_plain(t.columns[0]);
    let rest = t.columns.drop_first();
    assert forall|k: int| 0 <= k < rest.len() implies column_plain(#[trigger] rest[k]) by {
        assert(rest[k] == t.columns[k + 1]);
    }
    lemma_more_columns_plain(rest);
    lemma_plain_concat(column_tokens(t.columns[0]), more_columns_tokens(rest));
    if let Some(v) = t.indexes {
        assert(index_plain(v[0]) && index_well_formed(v[0]));
        lemma_item_tokens_plain(v[0]);
        let vr = v.drop_first();
        assert forall|k: int| 0 <= k < vr.len() implies index_plain(#[trigger] vr[k]) && index_well_formed(vr[k]) by {
            assert(vr[k] == v[k + 1]);
        }
        lemma_more_items_plain(vr);
        let h = seq![TokenV::Indexes, TokenV::LeftBrace];
        assert(plain_tokens(h));
        lemma_plain_concat(h, item_tokens(v[0]));
        lemma_plain_concat(h + item_tokens(v[0]), more_items_tokens(vr));
        lemma_plain_concat(h + item_tokens(v[0]) + more_items_tokens(vr), rb);
    } else {
        assert(plain_tokens(x));
    }
    lemma_plain_concat(a, tt);
    lemma_plain_concat(a + tt, e);
    lemma_plain_concat(a + tt + e, lb);
    lemma_plain_concat(a + tt + e + lb, cm);
    lemma_plain_concat(a + tt + e + lb + cm, x);
    lemma_plain_concat(a + tt + e + lb + cm + x, rb);
}

/// A well-formed schema whose names are plain spells out as plain tokens.
pub proof fn lemma_schema_tokens_plain(s: SchemaV)
    requires
        schema_plain(s),
        schema_well_formed(s),
    ensures
        plain_tokens(schema_tokens(s)),
{
    lemma_tables_tokens_plain(s.tables);
}

proof fn lemma_tables_tokens_plain(ts: Seq<TableV>)
    requires
        forall|k: int| 0 <= k < ts.len() ==> table_plain(#[trigger] ts[k]) && table_well_formed(ts[k]),
    ensures
        plain_tokens(tables_tokens(ts)),
    decreases ts.len(),
{
    if ts.len() > 0 {
        let rest = ts.drop_first();
        assert forall|k: int| 0 <= k < rest.len() implies table_plain(#[trigger] rest[k]) && table_well_formed(rest[k]) by {
            assert(rest[k] == ts[k + 1]);
        }
        lemma_tables_tokens_plain(rest);
        assert(table_plain(ts[0]) && table_well_formed(ts[0]));
        lemma_table_tokens_plain(ts[0]);
        lemma_plain_concat(table_tokens(ts[0]), tables_tokens(rest));
    }
}

// ---- What the parser builds from plain identifiers is plain ----

proof fn lemma_ident_plain(ts: Seq<(TokenV, Span)>, eoi: usize, i: int)
    requires
        ids_plain(ts),
        ident_rule(ts, eoi, i) is Ok,
    ensures
        plain_name(ident_rule(ts, eoi, i)->Ok_0.0.name),
{
    assert(ts[i].0 is Id);
}

proof fn lemma_column_plain(ts: Seq<(TokenV, Span)>, eoi: usize, i: int)
    requires
        ids_plain(ts),
        column_rule(ts, eoi, i) is Ok,
    ensures
        column_plain(column_rule(ts, eoi, i)->Ok_0.0),
{
    lemma_ident_plain(ts, eoi, i);
    lemma_ident_plain(ts, eoi, i + 2);
    let c = column_rule(ts, eoi, i)->Ok_0.0;
    if let Some(r) = c.reference {
        let i4 = i + 3 + attribute_tokens(c.attribute).len();
        lemma_ident_plain(ts, eoi, i4 + 3);
        lemma_ident_plain(ts, eoi, i4 + 5);
    }
}

proof fn lemma_columns_after_plain(ts: Seq<(TokenV, Span)>, eoi: usize, j: int)
    requires
        0 <= j,
        ids_plain(ts),
        columns_after(ts, eoi, j) is Ok,
    ensures
        forall|k: int|
            0 <= k < columns_after(ts, eoi, j)->Ok_0.0.len() ==> column_plain(
                #[trigger] columns_after(ts, eoi, j)->Ok_0.0[k],
            ),
    decreases ts.len() - j,
{
    if tok(ts, j) == Some(TokenV::Comma) {
        crate::parser::lemma_column_advances(ts, eoi, j + 1);
        let (c, k) = column_rule(ts, eoi, j + 1)->Ok_0;
        lemma_column_plain(ts, eoi, j + 1);
        lemma_columns_after_plain(ts, eoi, k);
        let r = columns_after(ts, eoi, k)->Ok_0.0;
        assert forall|q: int| 0 <= q < (seq![c] + r).len() implies column_plain(#[trigger] (seq![c] + r)[q]) by {
            if q > 0 {
                assert((seq![c] + r)[q] == r[q - 1]);
            }
        }
    }
}

proof fn lemma_idents_after_plain(ts: Seq<(TokenV, Span)>, eoi: usize, j: int)
    requires
        0 <= j,
        ids_plain(ts),
        idents_after(ts, eoi, j) is Ok,
    ensures
        idents_plain(idents_after(ts, eoi, j)->Ok_0.0),
    decreases ts.len() - j,
{
    if tok(ts, j) == Some(TokenV::Comma) {
        crate::parser::lemma_ident_advances(ts, eoi, j + 1);
        let (c, k) = ident_rule(ts, eoi, j + 1)->Ok_0;
        lemma_ident_plain(ts, eoi, j + 1);
        lemma_idents_after_plain(ts, eoi, k);
        let r = idents_after(ts, eoi, k)->Ok_0.0;
        assert forall|q: int| 0 <= q < (seq![c] + r).len() implies plain_name(#[trigger] (seq![c] + r)[q].name) by {
            if q > 0 {
                assert((seq![c] + r)[q] == r[q - 1]);
            }
        }
    }
}

proof fn lemma_item_plain(ts: Seq<(TokenV, Span)>, eoi: usize, i: int)
    requires
        0 <= i,
        ids_plain(ts),
        index_item_rule(ts, eoi, i) is Ok,
    ensures
        index_plain(index_item_rule(ts, eoi, i)->Ok_0.0),
{
    if tok(ts, i) == Some(TokenV::LeftParen) {
        lemma_ident_plain(ts, eoi, i + 1);
        lemma_ident_plain(ts, eoi, i + 3);
        lemma_idents_after_plain(ts, eoi, i + 4);
        let a = ident_rule(ts, eoi, i + 1)->Ok_0.0;
        let b = ident_rule(ts, eoi, i + 3)->Ok_0.0;
        let r = idents_after(ts, eoi, i + 4)->Ok_0.0;
        let all = seq![a, b] + r;
        assert forall|q: int| 0 <= q < all.len() implies plain_name(#[trigger] all[q].name) by {
            if q > 1 {
                assert(all[q] == r[q - 2]);
            }
        }
    } else {
        lemma_ident_plain(ts, eoi, i);
    }
}

proof fn lemma_items_after_plain(ts: Seq<(TokenV, Span)>, eoi: usize, j: int)
    requires
        0 <= j,
        ids_plain(ts),
        items_after(ts, eoi, j) is Ok,
    ensures
        forall|k: int|
            0 <= k < items_after(ts, eoi, j)->Ok_0.0.len() ==> index_plain(
                #[trigger] items_after(ts, eoi, j)->Ok_0.0[k],
            ),
    decreases ts.len() - j,
{
    if tok(ts, j) == Some(TokenV::Comma) {
        crate::parser::lemma_index_item_advances(ts, eoi, j + 1);
        let (c, k) = index_item_rule(ts, eoi, j + 1)->Ok_0;
        lemma_item_plain(ts, eoi, j + 1);
        lemma_items_after_plain(ts, eoi, k);
        let r = items_after(ts, eoi, k)->Ok_0.0;
        assert forall|q: int| 0 <= q < (seq![c] + r).len() implies index_plain(#[trigger] (seq![c] + r)[q]) by {
            if q > 0 {
                assert((seq![c] + r)[q] == r[q - 1]);
            }
        }
    }
}

proof fn lemma_table_plain(ts: Seq<(TokenV, Span)>, eoi: usize, i: int)
    requires
        0 <= i,
        ids_plain(ts),
        table_rule(ts, eoi, i) is Ok,
    ensures
        table_plain(table_rule(ts, eoi, i)->Ok_0.0),
{
    reveal(table_rule);
    let is_abstract = tok(ts, i) == Some(TokenV::Abstract);
    let i1 = if is_abstract { i + 1 } else { i };
    let i3 = i1 + 2;
    lemma_ident_plain(ts, eoi, i1 + 1);
    let i4 = if tok(ts, i3) == Some(TokenV::Extends) {
        lemma_ident_plain(ts, eoi, i3 + 1);
        i3 + 2
    } else {
        i3
    };
    let i5 = i4 + 1;
    crate::parser::lemma_column_advances(ts, eoi, i5);
    let (c0, j0) = column_rule(ts, eoi, i5)->Ok_0;
    lemma_column_plain(ts, eoi, i5);
    lemma_columns_after_plain(ts, eoi, j0);
    let cr = columns_after(ts, eoi, j0)->Ok_0.0;
    assert forall|q: int| 0 <= q < (seq![c0] + cr).len() implies column_plain(#[trigger] (seq![c0] + cr)[q]) by {
        if q > 0 {
            assert((seq![c0] + cr)[q] == cr[q - 1]);
        }
    }
    let (cols, i6) = columns_rule(ts, eoi, i5)->Ok_0;
    if tok(ts, i6) == Some(TokenV::Indexes) {
        lemma_section_plain(ts, eoi, i6);
    } else if tok(ts, i6 + 1) == Some(TokenV::Indexes) && index_section_rule(ts, eoi, i6 + 1) is Ok {
        lemma_section_plain(ts, eoi, i6 + 1);
    }
}

proof fn lemma_section_plain(ts: Seq<(TokenV, Span)>, eoi: usize, j: int)
    requires
        0 <= j,
        ids_plain(ts),
        index_section_rule(ts, eoi, j) is Ok,
    ensures
        forall|k: int|
            0 <= k < index_section_rule(ts, eoi, j)->Ok_0.0.len() ==> index_plain(
                #[trigger] index_section_rule(ts, eoi, j)->Ok_0.0[k],
            ),
{
    let i1x = j + 2;
    crate::parser::lemma_index_item_advances(ts, eoi, i1x);
    let (first, i2x) = index_item_rule(ts, eoi, i1x)->Ok_0;
    lemma_item_plain(ts, eoi, i1x);
    lemma_items_after_plain(ts, eoi, i2x);
    let r = items_after(ts, eoi, i2x)->Ok_0.0;
    assert forall|q: int| 0 <= q < (seq![first] + r).len() implies index_plain(#[trigger] (seq![first] + r)[q]) by {
        if q > 0 {
            assert((seq![first] + r)[q] == r[q - 1]);
        }
    }
}

proof fn lemma_tables_after_plain(ts: Seq<(TokenV, Span)>, eoi: usize, j: int)
    requires
        0 <= j,
        ids_plain(ts),
        tables_after(ts, eoi, j) is Ok,
    ensures
        forall|k: int|
            0 <= k < tables_after(ts, eoi, j)->Ok_0.0.len() ==> table_plain(
                #[trigger] tables_after(ts, eoi, j)->Ok_0.0[k],
            ),
    decreases ts.len() - j,
{
    if 0 <= j < ts.len() {
        crate::parser::lemma_table_advances(ts, eoi, j);
        let (c, k) = table_rule(ts, eoi, j)->Ok_0;
        lemma_table_plain(ts, eoi, j);
        lemma_tables_after_plain(ts, eoi, k);
        let r = tables_after(ts, eoi, k)->Ok_0.0;
        assert forall|q: int| 0 <= q < (seq![c] + r).len() implies table_plain(#[trigger] (seq![c] + r)[q]) by {
            if q > 0 {
                assert((seq![c] + r)[q] == r[q - 1]);
            }
        }
    }
}

/// Every name in a parsed schema is a plain name.
pub proof fn lemma_parsed_plain(name: Seq<char>, src: Seq<char>)
    requires
        parse_spec(name, src) is Ok,
    ensures
        schema_plain(parse_spec(name, src)->Ok_0),
{
    let ts = lex(src);
    let eoi = vstd::utf8::encode_utf8(src).len() as usize;
    lemma_lex_ids_plain(vstd::utf8::encode_utf8(src), 0);
    crate::parser::lemma_table_advances(ts, eoi, 0);
    let (t, j) = table_rule(ts, eoi, 0)->Ok_0;
    lemma_table_plain(ts, eoi, 0);
    lemma_tables_after_plain(ts, eoi, j);
    let r = tables_after(ts, eoi, j)->Ok_0.0;
    assert forall|q: int| 0 <= q < (seq![t] + r).len() implies table_plain(#[trigger] (seq![t] + r)[q]) by {
        if q > 0 {
            assert((seq![t] + r)[q] == r[q - 1]);
        }
    }
}

/// Round trip through source text for whatever the parser accepts: writing a
/// parsed schema out and parsing the text again gives the same schema, up to
/// source positions.
pub proof fn lemma_reparse(name: Seq<char>, src: Seq<char>)
    requires
        parse_spec(name, src) is Ok,
    ensures
        parse_spec(name, source_of(schema_tokens(parse_spec(name, src)->Ok_0))) is Ok,
        bare_schema(parse_spec(name, source_of(schema_tokens(parse_spec(name, src)->Ok_0)))->Ok_0)
            == bare_schema(parse_spec(name, src)->Ok_0),
{
    let s = parse_spec(name, src)->Ok_0;
    assert(s.name == name);
    lemma_parsed_well_formed(name, src);
    lemma_parsed_plain(name, src);
    lemma_schema_tokens_plain(s);
    lemma_source_round_trip(s);
}

} // verus!
