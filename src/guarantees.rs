use vstd::prelude::*;
use crate::ast::{SchemaV, Span, TableV};
use crate::lexer::{lex, TokenV};
use crate::parser::{
    column_rule, columns_after, columns_rule, expect_tok, fail_at, ident_rule,
    idents_after, index_item_rule, index_section_rule, items_after, parse_spec,
    reference_rule, schema_rule, table_rule, tables_after, SyntaxErrorV,
};
use crate::roundtrip::{
    bare_column, bare_columns, bare_ident, bare_index, bare_indexes, bare_schema, bare_table,
    bare_tables, schema_tokens, source_of,
};
use crate::semantic::{
    chain_entries, entry_names, find_from, step,
    ancestor, bad_reference_pred, bad_reference_table_pred, check_spec, cyclic_pred, dup_pred,
    effective_columns, ends, extension_bad_pred, first_where, has_column, indexes_of,
    item_idents, lemma_ends_within, lemma_first_where, lemma_lookup, lemma_names_distinct,
    lookup, missing_ident_pred, missing_index_table_pred, missing_item_pred, names_distinct,
    redeclared_column_pred, redeclared_pred,
};

verus! {

/// In a schema that passes the check, no two tables share a name, and no two
/// entries of any table's effective columns share a name.
pub proof fn lemma_checked_names_unique(s: SchemaV)
    requires
        check_spec(s) is Ok,
    ensures
        forall|i: int, j: int|
            0 <= i < j < s.tables.len() ==> s.tables[i].id.name != s.tables[j].id.name,
        forall|i: int, p: int, q: int|
            0 <= i < s.tables.len() && 0 <= p < q < effective_columns(s.tables, i).len()
                ==> #[trigger] effective_columns(s.tables, i)[p].id.name != #[trigger] effective_columns(s.tables, i)[q].id.name,
{
    let ts = s.tables;
    lemma_first_where(ts.len() as int, redeclared_pred(ts), 0);
    lemma_first_where(ts.len() as int, redeclared_column_pred(ts), 0);
    assert forall|i: int, j: int| 0 <= i < j < ts.len() implies ts[i].id.name != ts[j].id.name by {
        assert(!redeclared_pred(ts)(i));
        assert(!redeclared_pred(ts)(j));
    }
    assert forall|i: int, p: int, q: int|
        0 <= i < ts.len() && 0 <= p < q < effective_columns(ts, i).len()
            implies #[trigger] effective_columns(ts, i)[p].id.name != #[trigger] effective_columns(ts, i)[q].id.name by {
        let e = effective_columns(ts, i);
        assert(!redeclared_column_pred(ts)(i));
        lemma_first_where(e.len() as int, dup_pred(e), 0);
        assert(!dup_pred(e)(q));
    }
}

/// In a schema that passes the check, following `extends` from any table
/// ends after at most as many steps as there are tables.
pub proof fn lemma_checked_acyclic(s: SchemaV)
    requires
        check_spec(s) is Ok,
    ensures
        forall|i: int| 0 <= i < s.tables.len() ==> #[trigger] ancestor(s.tables, i, s.tables.len()) == -1,
{
    let ts = s.tables;
    lemma_first_where(ts.len() as int, cyclic_pred(ts), 0);
    assert forall|i: int| 0 <= i < ts.len() implies #[trigger] ancestor(ts, i, ts.len()) == -1 by {
        assert(!cyclic_pred(ts)(i));
        lemma_ends_within(ts, i);
    }
}

/// Checking depends on nothing but the schema: two parses of one source text
/// give equal schemas, and the check gives them the same outcome, with the
/// same diagnostics.
pub proof fn lemma_check_deterministic(name: Seq<char>, src: Seq<char>, a: SchemaV, b: SchemaV)
    requires
        parse_spec(name, src) == Ok::<SchemaV, crate::parser::SyntaxErrorV>(a),
        parse_spec(name, src) == Ok::<SchemaV, crate::parser::SyntaxErrorV>(b),
    ensures
        a == b,
        check_spec(a) == check_spec(b),
{
}

/// Each `extends` names an existing abstract table.
pub open spec fn parents_ok(ts: Seq<TableV>) -> bool {
    forall|i: int|
        0 <= i < ts.len() && (#[trigger] ts[i]).extended_by is Some ==> exists|k: int|
            0 <= k < ts.len() && ts[k].id.name == ts[i].extended_by->Some_0.name && ts[k].is_abstract
}

/// Following `extends` from any table ends within as many steps as there are
/// tables.
pub open spec fn chains_end(ts: Seq<TableV>) -> bool {
    forall|i: int| 0 <= i < ts.len() ==> #[trigger] ancestor(ts, i, ts.len()) == -1
}

/// No name appears twice among a table's effective columns.
pub open spec fn columns_unique(ts: Seq<TableV>) -> bool {
    forall|i: int, p: int, q: int|
        0 <= i < ts.len() && 0 <= p < q < effective_columns(ts, i).len()
            ==> #[trigger] effective_columns(ts, i)[p].id.name != #[trigger] effective_columns(ts, i)[q].id.name
}

/// Every indexed name is an effective column of its table.
pub open spec fn indexes_ok(ts: Seq<TableV>) -> bool {
    forall|i: int, a: int, b: int|
        0 <= i < ts.len() && 0 <= a < indexes_of(ts[i]).len() && 0 <= b < item_idents(
            indexes_of(ts[i])[a],
        ).len() ==> has_column(ts, i, #[trigger] item_idents(indexes_of(ts[i])[a])[b].name)
}

/// Every reference names an existing table and one of its effective columns.
pub open spec fn references_ok(ts: Seq<TableV>) -> bool {
    forall|i: int, c: int|
        0 <= i < ts.len() && 0 <= c < ts[i].columns.len() && (#[trigger] ts[i].columns[c]).reference is Some
            ==> exists|k: int|
            0 <= k < ts.len() && ts[k].id.name == ts[i].columns[c].reference->Some_0.table.name
                && has_column(ts, k, ts[i].columns[c].reference->Some_0.column.name)
}

/// The static rules of the language.
pub open spec fn schema_valid(s: SchemaV) -> bool {
    &&& names_distinct(s.tables)
    &&& parents_ok(s.tables)
    &&& chains_end(s.tables)
    &&& columns_unique(s.tables)
    &&& indexes_ok(s.tables)
    &&& references_ok(s.tables)
}

/// The check succeeds exactly on the schemas that keep every rule: unique
/// table names, existing abstract parents, chains that end, unique effective
/// column names, and indexes and references that resolve.
pub proof fn lemma_check_ok_iff_valid(s: SchemaV)
    ensures
        check_spec(s) is Ok <==> schema_valid(s),
{
    let ts = s.tables;
    let n = ts.len() as int;
    lemma_first_where(n, redeclared_pred(ts), 0);
    lemma_first_where(n, extension_bad_pred(ts), 0);
    lemma_first_where(n, cyclic_pred(ts), 0);
    lemma_first_where(n, redeclared_column_pred(ts), 0);
    lemma_first_where(n, missing_index_table_pred(ts), 0);
    lemma_first_where(n, bad_reference_table_pred(ts), 0);
    if check_spec(s) is Ok {
        lemma_names_distinct(ts);
        lemma_checked_names_unique(s);
        lemma_checked_acyclic(s);
        assert forall|i: int| 0 <= i < ts.len() && (#[trigger] ts[i]).extended_by is Some implies exists|k: int|
            0 <= k < ts.len() && ts[k].id.name == ts[i].extended_by->Some_0.name && ts[k].is_abstract by {
            assert(!extension_bad_pred(ts)(i));
            lemma_lookup(ts, ts[i].extended_by->Some_0.name);
        }
        assert forall|i: int, a: int, b: int|
            0 <= i < ts.len() && 0 <= a < indexes_of(ts[i]).len() && 0 <= b < item_idents(
                indexes_of(ts[i])[a],
            ).len() implies has_column(ts, i, #[trigger] item_idents(indexes_of(ts[i])[a])[b].name) by {
            assert(!missing_index_table_pred(ts)(i));
            lemma_first_where(indexes_of(ts[i]).len() as int, missing_item_pred(ts, i), 0);
            assert(!missing_item_pred(ts, i)(a));
            lemma_first_where(item_idents(indexes_of(ts[i])[a]).len() as int, missing_ident_pred(ts, i, a), 0);
            assert(!missing_ident_pred(ts, i, a)(b));
        }
        assert forall|i: int, c: int|
            0 <= i < ts.len() && 0 <= c < ts[i].columns.len() && (#[trigger] ts[i].columns[c]).reference is Some
                implies exists|k: int|
                0 <= k < ts.len() && ts[k].id.name == ts[i].columns[c].reference->Some_0.table.name
                    && has_column(ts, k, ts[i].columns[c].reference->Some_0.column.name) by {
            assert(!bad_reference_table_pred(ts)(i));
            lemma_first_where(ts[i].columns.len() as int, bad_reference_pred(ts, i), 0);
            assert(!bad_reference_pred(ts, i)(c));
            lemma_lookup(ts, ts[i].columns[c].reference->Some_0.table.name);
        }
    }
    if schema_valid(s) {
        assert forall|j: int| 0 <= j < n implies !#[trigger] redeclared_pred(ts)(j) by {
            lemma_lookup(ts, ts[j].id.name);
        }
        assert forall|i: int| 0 <= i < n implies !#[trigger] extension_bad_pred(ts)(i) by {
            if let Some(p) = ts[i].extended_by {
                assert(ts[i].extended_by is Some);
                let k = choose|k: int| 0 <= k < ts.len() && ts[k].id.name == p.name && ts[k].is_abstract;
                lemma_lookup(ts, p.name);
            }
        }
        assert forall|i: int| 0 <= i < n implies !#[trigger] cyclic_pred(ts)(i) by {
            assert(ancestor(ts, i, ts.len()) == -1);
        }
        assert forall|i: int| 0 <= i < n implies !#[trigger] redeclared_column_pred(ts)(i) by {
            let e = effective_columns(ts, i);
            lemma_first_where(e.len() as int, dup_pred(e), 0);
            if first_where(e.len() as int, dup_pred(e), 0) != -1 {
                let p = first_where(e.len() as int, dup_pred(e), 0);
                let q = choose|q: int| 0 <= q < p && e[q].id.name == e[p].id.name;
                assert(e[q].id.name != e[p].id.name);
            }
        }
        assert forall|i: int| 0 <= i < n implies !#[trigger] missing_index_table_pred(ts)(i) by {
            let v = indexes_of(ts[i]);
            lemma_first_where(v.len() as int, missing_item_pred(ts, i), 0);
            if first_where(v.len() as int, missing_item_pred(ts, i), 0) != -1 {
                let a = first_where(v.len() as int, missing_item_pred(ts, i), 0);
                let ids = item_idents(v[a]);
                lemma_first_where(ids.len() as int, missing_ident_pred(ts, i, a), 0);
                let b = first_where(ids.len() as int, missing_ident_pred(ts, i, a), 0);
                assert(has_column(ts, i, item_idents(indexes_of(ts[i])[a])[b].name));
            }
        }
        assert forall|i: int| 0 <= i < n implies !#[trigger] bad_reference_table_pred(ts)(i) by {
            lemma_first_where(ts[i].columns.len() as int, bad_reference_pred(ts, i), 0);
            if first_where(ts[i].columns.len() as int, bad_reference_pred(ts, i), 0) != -1 {
                let c = first_where(ts[i].columns.len() as int, bad_reference_pred(ts, i), 0);
                assert(ts[i].columns[c].reference is Some);
                let r = ts[i].columns[c].reference->Some_0;
                let k = choose|k: int| 0 <= k < ts.len() && ts[k].id.name == r.table.name && has_column(ts, k, r.column.name);
                lemma_lookup(ts, r.table.name);
                assert(lookup(ts, r.table.name) == k);
            }
        }
    }
}

/// The error is the one at some token position (or past the last token).
pub open spec fn located(ts: Seq<(TokenV, Span)>, eoi: usize, e: SyntaxErrorV) -> bool {
    exists|i: int| 0 <= i && e == fail_at(ts, eoi, i, e.expected)
}

proof fn lemma_reference_located(ts: Seq<(TokenV, Span)>, eoi: usize, i: int)
    requires
        0 <= i,
        reference_rule(ts, eoi, i) is Err,
    ensures
        located(ts, eoi, reference_rule(ts, eoi, i)->Err_0),
{
}

proof fn lemma_column_located(ts: Seq<(TokenV, Span)>, eoi: usize, i: int)
    requires
        0 <= i,
        column_rule(ts, eoi, i) is Err,
    ensures
        located(ts, eoi, column_rule(ts, eoi, i)->Err_0),
{
    if ident_rule(ts, eoi, i) is Ok && expect_tok(ts, eoi, i + 1, TokenV::Colon, crate::parser::Expected::Colon) is Ok
        && ident_rule(ts, eoi, i + 2) is Ok {
        let i4 = crate::parser::attribute_rule(ts, i + 3).1;
        if crate::parser::tok(ts, i4) == Some(TokenV::LeftParen) {
            lemma_reference_located(ts, eoi, i4);
        }
    }
}

proof fn lemma_columns_after_located(ts: Seq<(TokenV, Span)>, eoi: usize, j: int)
    requires
        0 <= j,
        columns_after(ts, eoi, j) is Err,
    ensures
        located(ts, eoi, columns_after(ts, eoi, j)->Err_0),
    decreases ts.len() - j,
{
    if column_rule(ts, eoi, j + 1) is Err {
        lemma_column_located(ts, eoi, j + 1);
    } else {
        crate::parser::lemma_column_advances(ts, eoi, j + 1);
        lemma_columns_after_located(ts, eoi, column_rule(ts, eoi, j + 1)->Ok_0.1);
    }
}

proof fn lemma_columns_located(ts: Seq<(TokenV, Span)>, eoi: usize, i: int)
    requires
        0 <= i,
        columns_rule(ts, eoi, i) is Err,
    ensures
        located(ts, eoi, columns_rule(ts, eoi, i)->Err_0),
{
    if column_rule(ts, eoi, i) is Err {
        lemma_column_located(ts, eoi, i);
    } else {
        crate::parser::lemma_column_advances(ts, eoi, i);
        lemma_columns_after_located(ts, eoi, column_rule(ts, eoi, i)->Ok_0.1);
    }
}

proof fn lemma_idents_after_located(ts: Seq<(TokenV, Span)>, eoi: usize, j: int)
    requires
        0 <= j,
        idents_after(ts, eoi, j) is Err,
    ensures
        located(ts, eoi, idents_after(ts, eoi, j)->Err_0),
    decreases ts.len() - j,
{
    if ident_rule(ts, eoi, j + 1) is Ok {
        lemma_idents_after_located(ts, eoi, j + 2);
    }
}

proof fn lemma_item_located(ts: Seq<(TokenV, Span)>, eoi: usize, i: int)
    requires
        0 <= i,
        index_item_rule(ts, eoi, i) is Err,
    ensures
        located(ts, eoi, index_item_rule(ts, eoi, i)->Err_0),
{
    if crate::parser::tok(ts, i) == Some(TokenV::LeftParen) {
        if ident_rule(ts, eoi, i + 1) is Ok && crate::parser::tok(ts, i + 2) == Some(TokenV::Comma)
            && ident_rule(ts, eoi, i + 3) is Ok {
            if idents_after(ts, eoi, i + 4) is Err {
                lemma_idents_after_located(ts, eoi, i + 4);
            } else {
                crate::parser::lemma_idents_after_bounds(ts, eoi, i + 4);
            }
        }
    }
}

proof fn lemma_items_after_located(ts: Seq<(TokenV, Span)>, eoi: usize, j: int)
    requires
        0 <= j,
        items_after(ts, eoi, j) is Err,
    ensures
        located(ts, eoi, items_after(ts, eoi, j)->Err_0),
    decreases ts.len() - j,
{
    if index_item_rule(ts, eoi, j + 1) is Err {
        lemma_item_located(ts, eoi, j + 1);
    } else {
        crate::parser::lemma_index_item_advances(ts, eoi, j + 1);
        lemma_items_after_located(ts, eoi, index_item_rule(ts, eoi, j + 1)->Ok_0.1);
    }
}

proof fn lemma_index_section_located(ts: Seq<(TokenV, Span)>, eoi: usize, i: int)
    requires
        0 <= i,
        index_section_rule(ts, eoi, i) is Err,
    ensures
        located(ts, eoi, index_section_rule(ts, eoi, i)->Err_0),
{
    if crate::parser::tok(ts, i) == Some(TokenV::Indexes) && crate::parser::tok(ts, i + 1) == Some(TokenV::LeftBrace) {
        if index_item_rule(ts, eoi, i + 2) is Err {
            lemma_item_located(ts, eoi, i + 2);
        } else {
            crate::parser::lemma_index_item_advances(ts, eoi, i + 2);
            let j = index_item_rule(ts, eoi, i + 2)->Ok_0.1;
            if items_after(ts, eoi, j) is Err {
                lemma_items_after_located(ts, eoi, j);
            } else {
                crate::parser::lemma_items_after_bounds(ts, eoi, j);
            }
        }
    }
}

proof fn lemma_table_located(ts: Seq<(TokenV, Span)>, eoi: usize, i: int)
    requires
        0 <= i,
        table_rule(ts, eoi, i) is Err,
    ensures
        located(ts, eoi, table_rule(ts, eoi, i)->Err_0),
{
    reveal(table_rule);
    let i1 = if crate::parser::tok(ts, i) == Some(TokenV::Abstract) { i + 1 } else { i };
    let i3 = i1 + 2;
    if crate::parser::tok(ts, i1) == Some(TokenV::Table) && ident_rule(ts, eoi, i1 + 1) is Ok {
        let ext_ok = crate::parser::tok(ts, i3) != Some(TokenV::Extends) || ident_rule(ts, eoi, i3 + 1) is Ok;
        let i4 = if crate::parser::tok(ts, i3) == Some(TokenV::Extends) { i3 + 2 } else { i3 };
        if ext_ok && crate::parser::tok(ts, i4) == Some(TokenV::LeftBrace) {
            if columns_rule(ts, eoi, i4 + 1) is Err {
                lemma_columns_located(ts, eoi, i4 + 1);
            } else {
                crate::parser::lemma_column_advances(ts, eoi, i4 + 1);
                crate::parser::lemma_columns_after_bounds(ts, eoi, column_rule(ts, eoi, i4 + 1)->Ok_0.1);
                let i6 = columns_rule(ts, eoi, i4 + 1)->Ok_0.1;
                if crate::parser::tok(ts, i6) == Some(TokenV::Indexes) && index_section_rule(ts, eoi, i6) is Err {
                    lemma_index_section_located(ts, eoi, i6);
                } else if crate::parser::tok(ts, i6) == Some(TokenV::Indexes) {
                    crate::parser::lemma_index_section_advances(ts, eoi, i6);
                } else if crate::parser::tok(ts, i6) == Some(TokenV::RightBrace) && crate::parser::tok(ts, i6 + 1)
                    == Some(TokenV::Indexes) && index_section_rule(ts, eoi, i6 + 1) is Err {
                    lemma_index_section_located(ts, eoi, i6 + 1);
                }
            }
        }
    }
}

proof fn lemma_tables_after_located(ts: Seq<(TokenV, Span)>, eoi: usize, j: int)
    requires
        0 <= j,
        tables_after(ts, eoi, j) is Err,
    ensures
        located(ts, eoi, tables_after(ts, eoi, j)->Err_0),
    decreases ts.len() - j,
{
    if table_rule(ts, eoi, j) is Err {
        lemma_table_located(ts, eoi, j);
    } else {
        crate::parser::lemma_table_advances(ts, eoi, j);
        lemma_tables_after_located(ts, eoi, table_rule(ts, eoi, j)->Ok_0.1);
    }
}

/// A syntax error points at a token of the input, which it names as found,
/// or else at the end of the input, with nothing found.
pub proof fn lemma_syntax_error_located(name: Seq<char>, src: Seq<char>)
    requires
        parse_spec(name, src) is Err,
    ensures
        ({
            let e = parse_spec(name, src)->Err_0;
            let ts = lex(src);
            let eoi = vstd::utf8::encode_utf8(src).len() as usize;
            (exists|i: int| 0 <= i < ts.len() && ts[i] == (e.found->Some_0, e.span) && e.found is Some)
                || (e.found is None && e.span == Span { start: eoi, end: eoi })
        }),
{
    let ts = lex(src);
    let eoi = vstd::utf8::encode_utf8(src).len() as usize;
    if table_rule(ts, eoi, 0) is Err {
        lemma_table_located(ts, eoi, 0);
    } else {
        crate::parser::lemma_table_advances(ts, eoi, 0);
        lemma_tables_after_located(ts, eoi, table_rule(ts, eoi, 0)->Ok_0.1);
    }
    let e = schema_rule(name, ts, eoi)->Err_0;
    let i = choose|i: int| 0 <= i && e == fail_at(ts, eoi, i, e.expected);
    if i < ts.len() {
        assert(ts[i] == (e.found->Some_0, e.span));
    }
}

// ---- The check looks at names, not at positions ----

proof fn lemma_bare_table_at(a: Seq<TableV>, b: Seq<TableV>, i: int)
    requires
        bare_tables(a) == bare_tables(b),
        0 <= i < a.len(),
    ensures
        a.len() == b.len(),
        bare_table(a[i]) == bare_table(b[i]),
        a[i].id.name == b[i].id.name,
        a[i].is_abstract == b[i].is_abstract,
        a[i].columns.len() == b[i].columns.len(),
{
    assert(bare_tables(a).len() == a.len());
    assert(bare_tables(b).len() == b.len());
    assert(bare_tables(a)[i] == bare_table(a[i]));
    assert(bare_tables(b)[i] == bare_table(b[i]));
    assert(bare_columns(a[i].columns).len() == a[i].columns.len());
    assert(bare_columns(b[i].columns).len() == b[i].columns.len());
}

proof fn lemma_column_names_at(a: Seq<TableV>, b: Seq<TableV>, i: int, c: int)
    requires
        bare_tables(a) == bare_tables(b),
        0 <= i < a.len(),
        0 <= c < a[i].columns.len(),
    ensures
        a[i].columns[c].id.name == b[i].columns[c].id.name,
        a[i].columns[c].reference is Some <==> b[i].columns[c].reference is Some,
        a[i].columns[c].reference is Some ==> a[i].columns[c].reference->Some_0.table.name
            == b[i].columns[c].reference->Some_0.table.name && a[i].columns[c].reference->Some_0.column.name
            == b[i].columns[c].reference->Some_0.column.name,
{
    lemma_bare_table_at(a, b, i);
    assert(bare_columns(a[i].columns)[c] == bare_column(a[i].columns[c]));
    assert(bare_columns(b[i].columns)[c] == bare_column(b[i].columns[c]));
}

proof fn lemma_find_from_bare(a: Seq<TableV>, b: Seq<TableV>, n: Seq<char>, i: int)
    requires
        bare_tables(a) == bare_tables(b),
        0 <= i,
    ensures
        find_from(a, n, i) == find_from(b, n, i),
    decreases a.len() - i,
{
    if i < a.len() {
        lemma_bare_table_at(a, b, i);
        lemma_find_from_bare(a, b, n, i + 1);
    } else {
        assert(bare_tables(a).len() == a.len() && bare_tables(b).len() == b.len());
    }
}

proof fn lemma_step_bare(a: Seq<TableV>, b: Seq<TableV>, x: int)
    requires
        bare_tables(a) == bare_tables(b),
    ensures
        step(a, x) == step(b, x),
{
    assert(bare_tables(a).len() == a.len() && bare_tables(b).len() == b.len());
    if 0 <= x < a.len() {
        lemma_bare_table_at(a, b, x);
        if let Some(p) = a[x].extended_by {
            lemma_find_from_bare(a, b, p.name, 0);
        }
    }
}

proof fn lemma_ancestor_bare(a: Seq<TableV>, b: Seq<TableV>, x: int, k: nat)
    requires
        bare_tables(a) == bare_tables(b),
    ensures
        ancestor(a, x, k) == ancestor(b, x, k),
    decreases k,
{
    if k > 0 {
        lemma_ancestor_bare(a, b, x, (k - 1) as nat);
        lemma_step_bare(a, b, ancestor(a, x, (k - 1) as nat));
    }
}

proof fn lemma_chain_names_bare(a: Seq<TableV>, b: Seq<TableV>, x: int, f: nat)
    requires
        bare_tables(a) == bare_tables(b),
    ensures
        entry_names(chain_entries(a, x, f)) == entry_names(chain_entries(b, x, f)),
    decreases f,
{
    assert(bare_tables(a).len() == a.len() && bare_tables(b).len() == b.len());
    if f > 0 && 0 <= x < a.len() {
        lemma_bare_table_at(a, b, x);
        lemma_step_bare(a, b, x);
        lemma_chain_names_bare(a, b, step(a, x), (f - 1) as nat);
        let ra = chain_entries(a, step(a, x), (f - 1) as nat);
        let rb = chain_entries(b, step(b, x), (f - 1) as nat);
        assert forall|c: int| 0 <= c < a[x].columns.len() implies #[trigger] a[x].columns[c].id.name == b[x].columns[c].id.name by {
            lemma_column_names_at(a, b, x, c);
        }
        assert(entry_names(a[x].columns + ra) =~= entry_names(a[x].columns) + entry_names(ra));
        assert(entry_names(b[x].columns + rb) =~= entry_names(b[x].columns) + entry_names(rb));
        assert(entry_names(a[x].columns) =~= entry_names(b[x].columns));
    }
}

proof fn lemma_valid_bare(sa: SchemaV, sb: SchemaV)
    requires
        bare_schema(sa) == bare_schema(sb),
        schema_valid(sa),
    ensures
        schema_valid(sb),
{
    let a = sa.tables;
    let b = sb.tables;
    assert(bare_tables(a) == bare_tables(b));
    assert(bare_tables(a).len() == a.len() && bare_tables(b).len() == b.len());
    assert forall|i: int| 0 <= i < b.len() implies #[trigger] effective_columns(b, i).len() == effective_columns(a, i).len()
        && entry_names(effective_columns(b, i)) == entry_names(effective_columns(a, i)) by {
        lemma_chain_names_bare(a, b, i, a.len());
        assert(entry_names(effective_columns(b, i)).len() == effective_columns(b, i).len());
        assert(entry_names(effective_columns(a, i)).len() == effective_columns(a, i).len());
    }
    assert forall|i: int, j: int| 0 <= i < j < b.len() implies b[i].id.name != b[j].id.name by {
        lemma_bare_table_at(a, b, i);
        lemma_bare_table_at(a, b, j);
    }
    assert forall|i: int| 0 <= i < b.len() && (#[trigger] b[i]).extended_by is Some implies exists|k: int|
        0 <= k < b.len() && b[k].id.name == b[i].extended_by->Some_0.name && b[k].is_abstract by {
        lemma_bare_table_at(a, b, i);
        assert(a[i].extended_by is Some);
        let k = choose|k: int| 0 <= k < a.len() && a[k].id.name == a[i].extended_by->Some_0.name && a[k].is_abstract;
        lemma_bare_table_at(a, b, k);
    }
    assert forall|i: int| 0 <= i < b.len() implies #[trigger] ancestor(b, i, b.len()) == -1 by {
        lemma_ancestor_bare(a, b, i, a.len());
        assert(ancestor(a, i, a.len()) == -1);
    }
    assert forall|i: int, p: int, q: int|
        0 <= i < b.len() && 0 <= p < q < effective_columns(b, i).len()
            implies #[trigger] effective_columns(b, i)[p].id.name != #[trigger] effective_columns(b, i)[q].id.name by {
        assert(effective_columns(a, i)[p].id.name != effective_columns(a, i)[q].id.name);
        assert(entry_names(effective_columns(a, i))[p] == effective_columns(a, i)[p].id.name);
        assert(entry_names(effective_columns(a, i))[q] == effective_columns(a, i)[q].id.name);
        assert(entry_names(effective_columns(b, i))[p] == effective_columns(b, i)[p].id.name);
        assert(entry_names(effective_columns(b, i))[q] == effective_columns(b, i)[q].id.name);
    }
    assert forall|i: int, x: int, y: int|
        0 <= i < b.len() && 0 <= x < indexes_of(b[i]).len() && 0 <= y < item_idents(indexes_of(b[i])[x]).len()
            implies has_column(b, i, #[trigger] item_idents(indexes_of(b[i])[x])[y].name) by {
        lemma_bare_table_at(a, b, i);
        let va = indexes_of(a[i]);
        let vb = indexes_of(b[i]);
        assert(a[i].indexes is Some);
        assert(bare_indexes(va) == bare_indexes(vb));
        assert(bare_indexes(va).len() == va.len() && bare_indexes(vb).len() == vb.len());
        assert(bare_indexes(va)[x] == bare_index(va[x]));
        assert(bare_indexes(vb)[x] == bare_index(vb[x]));
        match va[x] {
            crate::ast::IndexV::Single(ida, _) => {
                assert(item_idents(indexes_of(a[i])[x])[y].name == item_idents(indexes_of(b[i])[x])[y].name);
            },
            crate::ast::IndexV::Composite(ida, _) => {
                let idb = item_idents(vb[x]);
                assert(crate::roundtrip::bare_idents(ida).len() == ida.len());
                assert(crate::roundtrip::bare_idents(idb).len() == idb.len());
                assert(crate::roundtrip::bare_idents(ida)[y] == bare_ident(ida[y]));
                assert(crate::roundtrip::bare_idents(idb)[y] == bare_ident(idb[y]));
            },
        }
        assert(has_column(a, i, item_idents(indexes_of(a[i])[x])[y].name));
    }
    assert forall|i: int, c: int|
        0 <= i < b.len() && 0 <= c < b[i].columns.len() && (#[trigger] b[i].columns[c]).reference is Some
            implies exists|k: int|
            0 <= k < b.len() && b[k].id.name == b[i].columns[c].reference->Some_0.table.name
                && has_column(b, k, b[i].columns[c].reference->Some_0.column.name) by {
        lemma_bare_table_at(a, b, i);
        lemma_column_names_at(a, b, i, c);
        assert(a[i].columns[c].reference is Some);
        let r = a[i].columns[c].reference->Some_0;
        let k = choose|k: int| 0 <= k < a.len() && a[k].id.name == r.table.name && has_column(a, k, r.column.name);
        lemma_bare_table_at(a, b, k);
        assert(effective_columns(b, k).len() == effective_columns(a, k).len());
        assert(has_column(b, k, b[i].columns[c].reference->Some_0.column.name));
    }
}

/// Whether a schema passes the check does not depend on source positions.
pub proof fn lemma_check_ignores_positions(sa: SchemaV, sb: SchemaV)
    requires
        bare_schema(sa) == bare_schema(sb),
    ensures
        check_spec(sa) is Ok <==> check_spec(sb) is Ok,
{
    lemma_check_ok_iff_valid(sa);
    lemma_check_ok_iff_valid(sb);
    if schema_valid(sa) {
        lemma_valid_bare(sa, sb);
    }
    if schema_valid(sb) {
        lemma_valid_bare(sb, sa);
    }
}

/// Round trip with validation: a parsed schema that passes the check, written
/// out as text and parsed again, gives the same schema up to source
/// positions, and that schema passes the check too.
pub proof fn lemma_reparse_checked(name: Seq<char>, src: Seq<char>)
    requires
        parse_spec(name, src) is Ok,
        check_spec(parse_spec(name, src)->Ok_0) is Ok,
    ensures
        parse_spec(name, source_of(schema_tokens(parse_spec(name, src)->Ok_0))) is Ok,
        bare_schema(parse_spec(name, source_of(schema_tokens(parse_spec(name, src)->Ok_0)))->Ok_0)
            == bare_schema(parse_spec(name, src)->Ok_0),
        check_spec(parse_spec(name, source_of(schema_tokens(parse_spec(name, src)->Ok_0)))->Ok_0) is Ok,
{
    crate::roundtrip::lemma_reparse(name, src);
    let s = parse_spec(name, src)->Ok_0;
    let s2 = parse_spec(name, source_of(schema_tokens(s)))->Ok_0;
    lemma_check_ignores_positions(s, s2);
}

} // verus!
