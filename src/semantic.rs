use vstd::prelude::*;
use crate::ast::{
    columns_view, idents_view, indexes_view, tables_view, ColumnDef, ColumnV, Ident, ReferenceDef, IdentV, Index, IndexV, Schema, SchemaV,
    SemanticErr, Span, TableDef, TableV,
};
use crate::text::{cat2, cat3, cat5};

verus! {

/// One located remark of a diagnostic.
#[derive(Clone, Debug)]
pub struct Label {
    pub span: Span,
    pub message: String,
}

/// A semantic error: its kind, a message, and one or more located labels.
#[derive(Clone, Debug)]
pub struct SemanticDiagnostic {
    pub kind: SemanticErr,
    pub message: String,
    pub labels: Vec<Label>,
}

pub struct DiagV {
    pub kind: SemanticErr,
    pub message: Seq<char>,
    pub labels: Seq<(Span, Seq<char>)>,
}

impl View for SemanticDiagnostic {
    type V = DiagV;

    open spec fn view(&self) -> DiagV {
        DiagV {
            kind: self.kind,
            message: self.message@,
            labels: self.labels@.map_values(|l: Label| (l.span, l.message@)),
        }
    }
}

/// The first `k` in `[j, n)` for which `p` holds, or -1.
pub open spec fn first_where(n: int, p: spec_fn(int) -> bool, j: int) -> int
    decreases n - j,
{
    if 0 <= j < n {
        if p(j) {
            j
        } else {
            first_where(n, p, j + 1)
        }
    } else {
        -1
    }
}

pub proof fn lemma_first_where(n: int, p: spec_fn(int) -> bool, j: int)
    requires
        0 <= j,
    ensures
        first_where(n, p, j) == -1 ==> forall|k: int| j <= k < n ==> !#[trigger] p(k),
        first_where(n, p, j) != -1 ==> j <= first_where(n, p, j) < n && p(first_where(n, p, j))
            && forall|k: int| j <= k < first_where(n, p, j) ==> !#[trigger] p(k),
    decreases n - j,
{
    if j < n && !p(j) {
        lemma_first_where(n, p, j + 1);
    }
}

// ---- Name resolution ----

/// Index of the first table named `n` at or after `i`, or -1.
pub open spec fn find_from(ts: Seq<TableV>, n: Seq<char>, i: int) -> int
    decreases ts.len() - i,
{
    if 0 <= i < ts.len() {
        if ts[i].id.name == n {
            i
        } else {
            find_from(ts, n, i + 1)
        }
    } else {
        -1
    }
}

/// Index of the first table named `n`, or -1 when there is none.
pub open spec fn lookup(ts: Seq<TableV>, n: Seq<char>) -> int {
    find_from(ts, n, 0)
}

pub proof fn lemma_find_from(ts: Seq<TableV>, n: Seq<char>, i: int)
    requires
        0 <= i,
    ensures
        find_from(ts, n, i) == -1 ==> forall|k: int| i <= k < ts.len() ==> ts[k].id.name != n,
        find_from(ts, n, i) != -1 ==> i <= find_from(ts, n, i) < ts.len() && ts[find_from(ts, n, i)].id.name == n
            && forall|k: int| i <= k < find_from(ts, n, i) ==> ts[k].id.name != n,
    decreases ts.len() - i,
{
    if i < ts.len() && ts[i].id.name != n {
        lemma_find_from(ts, n, i + 1);
    }
}

pub proof fn lemma_lookup(ts: Seq<TableV>, n: Seq<char>)
    ensures
        -1 <= lookup(ts, n) < ts.len(),
        lookup(ts, n) == -1 <==> forall|k: int| 0 <= k < ts.len() ==> ts[k].id.name != n,
        lookup(ts, n) != -1 ==> ts[lookup(ts, n)].id.name == n
            && forall|k: int| 0 <= k < lookup(ts, n) ==> ts[k].id.name != n,
{
    lemma_find_from(ts, n, 0);
}

// ---- Pass 1: every table name is declared once ----

/// Table `j` repeats the name of an earlier table.
pub open spec fn redeclared_at(ts: Seq<TableV>, j: int) -> bool {
    lookup(ts, ts[j].id.name) != j
}

pub open spec fn redeclared_pred(ts: Seq<TableV>) -> spec_fn(int) -> bool {
    |j: int| redeclared_at(ts, j)
}

pub open spec fn first_redeclared(ts: Seq<TableV>) -> int {
    first_where(ts.len() as int, redeclared_pred(ts), 0)
}

pub open spec fn msg_declared_here(n: Seq<char>) -> Seq<char> {
    "table "@ + n + " is declared here"@
}

pub open spec fn msg_redeclared(n: Seq<char>) -> Seq<char> {
    "table "@ + n + " is redeclared"@
}

pub open spec fn redeclared_diag(ts: Seq<TableV>, j: int) -> DiagV {
    let n = ts[j].id.name;
    DiagV {
        kind: SemanticErr::TableRedeclaration,
        message: msg_redeclared(n),
        labels: seq![
            (ts[lookup(ts, n)].id.span, msg_declared_here(n)),
            (ts[j].id.span, "but redeclared here"@),
        ],
    }
}

// ---- Pass 2: a parent exists and is abstract ----

pub open spec fn extension_bad(ts: Seq<TableV>, i: int) -> bool {
    match ts[i].extended_by {
        Some(p) => lookup(ts, p.name) == -1 || !ts[lookup(ts, p.name)].is_abstract,
        None => false,
    }
}

pub open spec fn extension_bad_pred(ts: Seq<TableV>) -> spec_fn(int) -> bool {
    |i: int| extension_bad(ts, i)
}

pub open spec fn first_bad_extension(ts: Seq<TableV>) -> int {
    first_where(ts.len() as int, extension_bad_pred(ts), 0)
}

pub open spec fn msg_not_existed(n: Seq<char>) -> Seq<char> {
    "table "@ + n + " is not existed"@
}

pub open spec fn msg_referenced_here(n: Seq<char>) -> Seq<char> {
    "table "@ + n + " is referenced here"@
}

pub open spec fn msg_not_abstract(n: Seq<char>) -> Seq<char> {
    "table "@ + n + " is not abstract"@
}

pub open spec fn extension_diag(ts: Seq<TableV>, i: int) -> DiagV {
    let p = ts[i].extended_by->Some_0;
    let k = lookup(ts, p.name);
    if k == -1 {
        DiagV {
            kind: SemanticErr::NonExistentParent,
            message: msg_not_existed(p.name),
            labels: seq![(p.span, msg_not_existed(p.name))],
        }
    } else {
        DiagV {
            kind: SemanticErr::NonAbstractParent,
            message: msg_not_abstract(p.name),
            labels: seq![
                (ts[i].span, msg_referenced_here(p.name)),
                (ts[k].span, "but it's not abstract"@),
            ],
        }
    }
}

// ---- Pass 3: the extension chains are acyclic ----

/// The table that table `x` extends, or -1 (also for `x` itself -1).
pub open spec fn step(ts: Seq<TableV>, x: int) -> int {
    if 0 <= x < ts.len() {
        match ts[x].extended_by {
            Some(p) => lookup(ts, p.name),
            None => -1,
        }
    } else {
        -1
    }
}

/// The table reached from `x` after following `extended_by` `k` times, or -1.
pub open spec fn ancestor(ts: Seq<TableV>, x: int, k: nat) -> int
    decreases k,
{
    if k == 0 {
        x
    } else {
        step(ts, ancestor(ts, x, (k - 1) as nat))
    }
}

/// Following `extended_by` from `x` comes to an end.
pub open spec fn ends(ts: Seq<TableV>, x: int) -> bool {
    exists|k: nat| ancestor(ts, x, k) == -1
}

pub open spec fn cyclic_pred(ts: Seq<TableV>) -> spec_fn(int) -> bool {
    |i: int| !ends(ts, i)
}

pub open spec fn first_cyclic(ts: Seq<TableV>) -> int {
    first_where(ts.len() as int, cyclic_pred(ts), 0)
}

/// Step `m` of the walk from `s` reaches a table seen before, and no earlier
/// step did.
pub open spec fn first_repeat(ts: Seq<TableV>, s: int, m: nat) -> bool {
    &&& exists|a: nat| a < m && ancestor(ts, s, a) == ancestor(ts, s, m)
    &&& forall|a: nat, b: nat| a < b < m ==> ancestor(ts, s, a) != ancestor(ts, s, b)
}

/// The table where the walk from `s` closes its cycle.
pub open spec fn cycle_entry(ts: Seq<TableV>, s: int) -> int {
    ancestor(ts, s, choose|m: nat| first_repeat(ts, s, m))
}

/// Byte-wise lexicographic order, as `str` orders.
pub open spec fn bytes_lt(a: Seq<u8>, b: Seq<u8>) -> bool
    decreases a.len(),
{
    if a.len() == 0 {
        b.len() > 0
    } else if b.len() == 0 {
        false
    } else if a[0] != b[0] {
        a[0] < b[0]
    } else {
        bytes_lt(a.drop_first(), b.drop_first())
    }
}

/// Names ordered by their UTF-8 bytes.
pub open spec fn name_lt(a: Seq<char>, b: Seq<char>) -> bool {
    bytes_lt(vstd::utf8::encode_utf8(a), vstd::utf8::encode_utf8(b))
}

/// `s` is the table, among those whose walk never ends, with the least name.
pub open spec fn is_least_cyclic(ts: Seq<TableV>, s: int) -> bool {
    &&& 0 <= s < ts.len()
    &&& !ends(ts, s)
    &&& forall|t: int|
        0 <= t < ts.len() && !ends(ts, t) && t != s ==> name_lt(ts[s].id.name, #[trigger] ts[t].id.name)
}

/// Where the cycle check starts the walk that fails: walks start in the
/// order of table names.
pub open spec fn least_cyclic(ts: Seq<TableV>) -> int {
    choose|s: int| is_least_cyclic(ts, s)
}

pub open spec fn msg_cyclic(n: Seq<char>) -> Seq<char> {
    "cyclic reference happens at "@ + n
}

pub open spec fn cycle_diag(ts: Seq<TableV>, s: int) -> DiagV {
    let x = cycle_entry(ts, s);
    DiagV {
        kind: SemanticErr::CyclicRef,
        message: msg_cyclic(ts[x].id.name),
        labels: seq![(ts[x].span, msg_cyclic(ts[x].id.name))],
    }
}

// ---- Pass 4: effective column sets ----

/// The columns a table declares itself, whole: name, type, attribute,
/// reference and span.
pub open spec fn own_entries(t: TableV) -> Seq<ColumnV> {
    t.columns
}

pub open spec fn chain_entries(ts: Seq<TableV>, x: int, fuel: nat) -> Seq<ColumnV>
    decreases fuel,
{
    if fuel == 0 || !(0 <= x < ts.len()) {
        Seq::empty()
    } else {
        own_entries(ts[x]) + chain_entries(ts, step(ts, x), (fuel - 1) as nat)
    }
}

/// The effective columns of table `x`: its own, then those of each ancestor.
pub open spec fn effective_columns(ts: Seq<TableV>, x: int) -> Seq<ColumnV> {
    chain_entries(ts, x, ts.len())
}

pub open spec fn entry_names(e: Seq<ColumnV>) -> Seq<Seq<char>> {
    e.map_values(|c: ColumnV| c.id.name)
}

/// Entry `p` repeats the name of an earlier entry.
pub open spec fn dup_at(e: Seq<ColumnV>, p: int) -> bool {
    exists|q: int| 0 <= q < p && e[q].id.name == e[p].id.name
}

pub open spec fn dup_pred(e: Seq<ColumnV>) -> spec_fn(int) -> bool {
    |p: int| dup_at(e, p)
}

pub open spec fn first_dup(e: Seq<ColumnV>) -> int {
    first_where(e.len() as int, dup_pred(e), 0)
}

pub open spec fn redeclared_column_pred(ts: Seq<TableV>) -> spec_fn(int) -> bool {
    |i: int| first_dup(effective_columns(ts, i)) != -1
}

pub open spec fn first_redeclared_column_table(ts: Seq<TableV>) -> int {
    first_where(ts.len() as int, redeclared_column_pred(ts), 0)
}

pub open spec fn msg_column_redeclared(n: Seq<char>) -> Seq<char> {
    "column '"@ + n + "' is redeclared"@
}

pub open spec fn column_diag(ts: Seq<TableV>, i: int) -> DiagV {
    let e = effective_columns(ts, i);
    let p = first_dup(e);
    DiagV {
        kind: SemanticErr::ColumnRedeclaration,
        message: msg_column_redeclared(e[p].id.name),
        labels: seq![(e[p].span, msg_column_redeclared(e[p].id.name))],
    }
}

// ---- Pass 5: indexed columns exist ----

pub open spec fn item_idents(x: IndexV) -> Seq<IdentV> {
    match x {
        IndexV::Single(id, _) => seq![id],
        IndexV::Composite(ids, _) => ids,
    }
}

pub open spec fn indexes_of(t: TableV) -> Seq<IndexV> {
    match t.indexes {
        Some(v) => v,
        None => Seq::empty(),
    }
}

/// Column `n` is among the effective columns of table `i`.
pub open spec fn has_column(ts: Seq<TableV>, i: int, n: Seq<char>) -> bool {
    entry_names(effective_columns(ts, i)).contains(n)
}

pub open spec fn missing_ident_pred(ts: Seq<TableV>, i: int, a: int) -> spec_fn(int) -> bool {
    |b: int| !has_column(ts, i, item_idents(indexes_of(ts[i])[a])[b].name)
}

/// In item `a` of table `i`'s indexes, the first name that is no column.
pub open spec fn first_missing_ident(ts: Seq<TableV>, i: int, a: int) -> int {
    first_where(item_idents(indexes_of(ts[i])[a]).len() as int, missing_ident_pred(ts, i, a), 0)
}

pub open spec fn missing_item_pred(ts: Seq<TableV>, i: int) -> spec_fn(int) -> bool {
    |a: int| first_missing_ident(ts, i, a) != -1
}

/// The first index item of table `i` that cites a name that is no column.
pub open spec fn first_missing_item(ts: Seq<TableV>, i: int) -> int {
    first_where(indexes_of(ts[i]).len() as int, missing_item_pred(ts, i), 0)
}

pub open spec fn missing_index_table_pred(ts: Seq<TableV>) -> spec_fn(int) -> bool {
    |i: int| first_missing_item(ts, i) != -1
}

pub open spec fn first_missing_index_table(ts: Seq<TableV>) -> int {
    first_where(ts.len() as int, missing_index_table_pred(ts), 0)
}

pub open spec fn msg_missing_index(c: Seq<char>, t: Seq<char>) -> Seq<char> {
    "indexed column '"@ + c + "' does not exist in table '"@ + t + "'"@
}

pub open spec fn index_diag(ts: Seq<TableV>, i: int) -> DiagV {
    let a = first_missing_item(ts, i);
    let id = item_idents(indexes_of(ts[i])[a])[first_missing_ident(ts, i, a)];
    DiagV {
        kind: SemanticErr::MissingIndexedColumn,
        message: msg_missing_index(id.name, ts[i].id.name),
        labels: seq![(id.span, msg_missing_index(id.name, ts[i].id.name))],
    }
}

// ---- Pass 6: references resolve ----

pub open spec fn reference_bad(ts: Seq<TableV>, c: ColumnV) -> bool {
    match c.reference {
        Some(r) => {
            let k = lookup(ts, r.table.name);
            k == -1 || !has_column(ts, k, r.column.name)
        },
        None => false,
    }
}

pub open spec fn bad_reference_pred(ts: Seq<TableV>, i: int) -> spec_fn(int) -> bool {
    |c: int| reference_bad(ts, ts[i].columns[c])
}

pub open spec fn first_bad_reference(ts: Seq<TableV>, i: int) -> int {
    first_where(ts[i].columns.len() as int, bad_reference_pred(ts, i), 0)
}

pub open spec fn bad_reference_table_pred(ts: Seq<TableV>) -> spec_fn(int) -> bool {
    |i: int| first_bad_reference(ts, i) != -1
}

pub open spec fn first_bad_reference_table(ts: Seq<TableV>) -> int {
    first_where(ts.len() as int, bad_reference_table_pred(ts), 0)
}

pub open spec fn msg_missing_table(t: Seq<char>) -> Seq<char> {
    "table '"@ + t + "' is not exist in the schema"@
}

pub open spec fn msg_missing_column(c: Seq<char>, t: Seq<char>) -> Seq<char> {
    "column '"@ + c + "' is not existed in the table '"@ + t + "'"@
}

pub open spec fn reference_diag(ts: Seq<TableV>, i: int) -> DiagV {
    let r = ts[i].columns[first_bad_reference(ts, i)].reference->Some_0;
    if lookup(ts, r.table.name) == -1 {
        DiagV {
            kind: SemanticErr::MissingReferencedTable,
            message: msg_missing_table(r.table.name),
            labels: seq![(r.span, msg_missing_table(r.table.name))],
        }
    } else {
        DiagV {
            kind: SemanticErr::MissingReferencedColumn,
            message: msg_missing_column(r.column.name, r.table.name),
            labels: seq![(r.column.span, msg_missing_column(r.column.name, r.table.name))],
        }
    }
}

// ---- The whole check ----

/// The outcome of checking a schema: the passes run in order and the first
/// one that fails gives the diagnostic.
pub open spec fn check_spec(s: SchemaV) -> Result<(), DiagV> {
    let ts = s.tables;
    if first_redeclared(ts) != -1 {
        Err(redeclared_diag(ts, first_redeclared(ts)))
    } else if first_bad_extension(ts) != -1 {
        Err(extension_diag(ts, first_bad_extension(ts)))
    } else if first_cyclic(ts) != -1 {
        Err(cycle_diag(ts, least_cyclic(ts)))
    } else if first_redeclared_column_table(ts) != -1 {
        Err(column_diag(ts, first_redeclared_column_table(ts)))
    } else if first_missing_index_table(ts) != -1 {
        Err(index_diag(ts, first_missing_index_table(ts)))
    } else if first_bad_reference_table(ts) != -1 {
        Err(reference_diag(ts, first_bad_reference_table(ts)))
    } else {
        Ok(())
    }
}

pub open spec fn opt_int(o: Option<usize>) -> int {
    match o {
        Some(k) => k as int,
        None => -1,
    }
}



/// A diagnostic with one label that repeats its message.
fn single(kind: SemanticErr, span: Span, message: String) -> (d: SemanticDiagnostic)
    ensures
        d@ == (DiagV { kind, message: message@, labels: seq![(span, message@)] }),
{
    let copy = message.clone();
    let labels = vec![Label { span, message: copy }];
    let d = SemanticDiagnostic { kind, message, labels };
    assert(d@.labels =~= seq![(span, message@)]);
    d
}

/// A diagnostic with two labels.
fn pair(kind: SemanticErr, message: String, a: Span, ma: String, b: Span, mb: String) -> (d: SemanticDiagnostic)
    ensures
        d@ == (DiagV { kind, message: message@, labels: seq![(a, ma@), (b, mb@)] }),
{
    let labels = vec![Label { span: a, message: ma }, Label { span: b, message: mb }];
    let d = SemanticDiagnostic { kind, message, labels };
    assert(d@.labels =~= seq![(a, ma@), (b, mb@)]);
    d
}

/// The index of the first table named `n`.
fn find_table(tables: &Vec<TableDef>, n: &String) -> (r: Option<usize>)
    ensures
        opt_int(r) == lookup(tables_view(tables@), n@),
        r is Some ==> r->Some_0 < tables@.len(),
{
    let ghost ts = tables_view(tables@);
    let mut i: usize = 0;
    while i < tables.len()
        invariant
            ts == tables_view(tables@),
            i <= tables@.len(),
            lookup(ts, n@) == find_from(ts, n@, i as int),
        decreases tables@.len() - i,
    {
        if tables[i].id.name == *n {
            return Some(i);
        }
        i = i + 1;
    }
    None
}


pub proof fn lemma_step_bounds(ts: Seq<TableV>, x: int)
    ensures
        -1 <= step(ts, x) < ts.len(),
{
    if 0 <= x < ts.len() {
        if let Some(p) = ts[x].extended_by {
            lemma_lookup(ts, p.name);
        }
    }
}

pub proof fn lemma_ancestor_bounds(ts: Seq<TableV>, x: int, k: nat)
    requires
        -1 <= x < ts.len(),
    ensures
        -1 <= ancestor(ts, x, k) < ts.len(),
    decreases k,
{
    if k > 0 {
        lemma_ancestor_bounds(ts, x, (k - 1) as nat);
        lemma_step_bounds(ts, ancestor(ts, x, (k - 1) as nat));
    }
}

/// Walking `a` steps and then `b` steps is walking `a + b` steps.
pub proof fn lemma_ancestor_add(ts: Seq<TableV>, x: int, a: nat, b: nat)
    ensures
        ancestor(ts, ancestor(ts, x, a), b) == ancestor(ts, x, a + b),
    decreases b,
{
    if b > 0 {
        lemma_ancestor_add(ts, x, a, (b - 1) as nat);
        assert(ancestor(ts, x, a + b) == step(ts, ancestor(ts, x, (a + b - 1) as nat)));
    }
}

/// Once a walk has ended it stays ended.
pub proof fn lemma_ended_stays(ts: Seq<TableV>, x: int, a: nat, b: nat)
    requires
        ancestor(ts, x, a) == -1,
        a <= b,
    ensures
        ancestor(ts, x, b) == -1,
    decreases b - a,
{
    if a < b {
        lemma_ended_stays(ts, x, a, (b - 1) as nat);
    }
}

proof fn lemma_repeat_at(ts: Seq<TableV>, s: int, a: nat, b: nat, j: nat)
    requires
        a < b,
        ancestor(ts, s, a) == ancestor(ts, s, b),
        forall|i: nat| i <= b ==> #[trigger] ancestor(ts, s, i) != -1,
    ensures
        ancestor(ts, s, j) != -1,
    decreases j,
{
    if j > b {
        let d = (j - b) as nat;
        lemma_ancestor_add(ts, s, b, d);
        lemma_ancestor_add(ts, s, a, d);
        lemma_repeat_at(ts, s, a, b, a + d);
    }
}

/// A walk that comes back to a table it has seen never ends.
pub proof fn lemma_repeat_never_ends(ts: Seq<TableV>, s: int, a: nat, b: nat)
    requires
        a < b,
        ancestor(ts, s, a) == ancestor(ts, s, b),
        forall|i: nat| i <= b ==> #[trigger] ancestor(ts, s, i) != -1,
    ensures
        !ends(ts, s),
{
    assert forall|k: nat| ancestor(ts, s, k) != -1 by {
        lemma_repeat_at(ts, s, a, b, k);
    }
}

/// Distinct integers in `[0, n)` number at most `n`.
pub proof fn lemma_distinct_bound(q: Seq<int>, n: int)
    requires
        0 <= n,
        forall|i: int, j: int| 0 <= i < j < q.len() ==> q[i] != q[j],
        forall|i: int| 0 <= i < q.len() ==> 0 <= #[trigger] q[i] < n,
    ensures
        q.len() <= n,
{
    assert(q.no_duplicates()) by {
        assert forall|i: int, j: int| 0 <= i < q.len() && 0 <= j < q.len() && i != j implies q[i] != q[j] by {
            if i > j {
                assert(q[j] != q[i]);
            }
        }
    }
    q.unique_seq_to_set();
    vstd::set_lib::lemma_int_range(0, n);
    assert(q.to_set().subset_of(vstd::set_lib::set_int_range(0, n)));
    vstd::set_lib::lemma_len_subset(q.to_set(), vstd::set_lib::set_int_range(0, n));
}

proof fn lemma_first_repeat_unique(ts: Seq<TableV>, s: int, m: nat)
    requires
        first_repeat(ts, s, m),
    ensures
        cycle_entry(ts, s) == ancestor(ts, s, m),
{
    let c = choose|c: nat| first_repeat(ts, s, c);
    assert(first_repeat(ts, s, c));
    if c < m {
        let a = choose|a: nat| a < c && ancestor(ts, s, a) == ancestor(ts, s, c);
        assert(ancestor(ts, s, a) != ancestor(ts, s, c));
    } else if m < c {
        let a = choose|a: nat| a < m && ancestor(ts, s, a) == ancestor(ts, s, m);
        assert(ancestor(ts, s, a) != ancestor(ts, s, m));
    }
}

/// The table that table `x` extends, if it names one that exists.
fn step_exec(tables: &Vec<TableDef>, x: usize) -> (r: Option<usize>)
    requires
        x < tables@.len(),
    ensures
        opt_int(r) == step(tables_view(tables@), x as int),
        r is Some ==> r->Some_0 < tables@.len(),
{
    match &tables[x].extended_by {
        None => None,
        Some(p) => find_table(tables, &p.name),
    }
}

/// A walk that ends does so within as many steps as there are tables.
pub proof fn lemma_ends_within(ts: Seq<TableV>, x: int)
    requires
        0 <= x < ts.len(),
        ends(ts, x),
    ensures
        ancestor(ts, x, ts.len()) == -1,
{
    let n = ts.len();
    if ancestor(ts, x, n) != -1 {
        assert forall|a: nat| a <= n implies 0 <= #[trigger] ancestor(ts, x, a) < n by {
            lemma_ancestor_bounds(ts, x, a);
            if ancestor(ts, x, a) == -1 {
                lemma_ended_stays(ts, x, a, n);
            }
        }
        let q = Seq::new((n + 1) as nat, |a: int| ancestor(ts, x, a as nat));
        if forall|i: int, j: int| 0 <= i < j < q.len() ==> q[i] != q[j] {
            lemma_distinct_bound(q, n as int);
        } else {
            let (i, j) = choose|i: int, j: int| 0 <= i < j < q.len() && q[i] == q[j];
            assert forall|b: nat| b <= j as nat implies #[trigger] ancestor(ts, x, b) != -1 by {
                assert(0 <= ancestor(ts, x, b));
            }
            lemma_repeat_never_ends(ts, x, i as nat, j as nat);
        }
    }
}

pub proof fn lemma_first_where_is(n: int, p: spec_fn(int) -> bool, k: int)
    requires
        0 <= k < n,
        p(k),
        forall|j: int| 0 <= j < k ==> !#[trigger] p(j),
    ensures
        first_where(n, p, 0) == k,
{
    lemma_first_where(n, p, 0);
}

pub open spec fn entries_view(v: Seq<ColumnDef>) -> Seq<ColumnV> {
    columns_view(v)
}

/// Whether some entry of `acc` is named `name`.
fn contains_name(acc: &Vec<ColumnDef>, name: &String) -> (r: bool)
    ensures
        r == exists|q: int| 0 <= q < acc@.len() && acc@[q].id.name@ == name@,
{
    let mut q: usize = 0;
    while q < acc.len()
        invariant
            q <= acc@.len(),
            forall|j: int| 0 <= j < q ==> acc@[j].id.name@ != name@,
        decreases acc@.len() - q,
    {
        if acc[q].id.name == *name {
            return true;
        }
        q = q + 1;
    }
    false
}

/// Whether `name` is among the names of `v`.
fn in_entries(v: &Vec<ColumnDef>, name: &String) -> (r: bool)
    ensures
        r == entry_names(entries_view(v@)).contains(name@),
{
    let r = contains_name(v, name);
    proof {
        let names = entry_names(entries_view(v@));
        if r {
            let q = choose|q: int| 0 <= q < v@.len() && v@[q].id.name@ == name@;
            assert(names[q] == name@);
        } else {
            assert forall|q: int| 0 <= q < names.len() implies names[q] != name@ by {
                assert(names[q] == v@[q].id.name@);
            }
        }
    }
    r
}

/// The context that the flattening pass hands on: the effective columns of
/// every table.
pub open spec fn context_ok(ts: Seq<TableV>, ctx: Seq<Vec<ColumnDef>>) -> bool {
    &&& ctx.len() == ts.len()
    &&& forall|i: int| 0 <= i < ctx.len() ==> entries_view(#[trigger] ctx[i]@) == effective_columns(ts, i)
}

pub proof fn lemma_bytes_lt_asym(a: Seq<u8>, b: Seq<u8>)
    ensures
        !(bytes_lt(a, b) && bytes_lt(b, a)),
    decreases a.len(),
{
    if a.len() > 0 && b.len() > 0 && a[0] == b[0] {
        lemma_bytes_lt_asym(a.drop_first(), b.drop_first());
    }
}

pub proof fn lemma_bytes_lt_trans(a: Seq<u8>, b: Seq<u8>, c: Seq<u8>)
    requires
        bytes_lt(a, b),
        bytes_lt(b, c),
    ensures
        bytes_lt(a, c),
    decreases a.len(),
{
    if a.len() > 0 && b.len() > 0 && c.len() > 0 && a[0] == b[0] && b[0] == c[0] {
        lemma_bytes_lt_trans(a.drop_first(), b.drop_first(), c.drop_first());
    }
}

pub proof fn lemma_bytes_lt_total(a: Seq<u8>, b: Seq<u8>)
    requires
        a != b,
    ensures
        bytes_lt(a, b) || bytes_lt(b, a),
    decreases a.len(),
{
    if a.len() > 0 && b.len() > 0 && a[0] == b[0] {
        if a.drop_first() == b.drop_first() {
            assert(a =~= seq![a[0]] + a.drop_first());
            assert(b =~= seq![b[0]] + b.drop_first());
        }
        lemma_bytes_lt_total(a.drop_first(), b.drop_first());
    } else if a.len() == 0 && b.len() == 0 {
        assert(a =~= b);
    }
}

pub proof fn lemma_name_lt_total(a: Seq<char>, b: Seq<char>)
    requires
        a != b,
    ensures
        name_lt(a, b) || name_lt(b, a),
{
    vstd::utf8::encode_utf8_decode_utf8(a);
    vstd::utf8::encode_utf8_decode_utf8(b);
    lemma_bytes_lt_total(vstd::utf8::encode_utf8(a), vstd::utf8::encode_utf8(b));
}

/// No two tables share a name.
pub open spec fn names_distinct(ts: Seq<TableV>) -> bool {
    forall|i: int, j: int| 0 <= i < j < ts.len() ==> ts[i].id.name != ts[j].id.name
}

pub proof fn lemma_names_distinct(ts: Seq<TableV>)
    requires
        first_redeclared(ts) == -1,
    ensures
        names_distinct(ts),
{
    lemma_first_where(ts.len() as int, redeclared_pred(ts), 0);
    assert forall|i: int, j: int| 0 <= i < j < ts.len() implies ts[i].id.name != ts[j].id.name by {
        assert(!redeclared_pred(ts)(i));
        assert(!redeclared_pred(ts)(j));
    }
}

/// Whether name `a` comes before name `b`.
fn name_less(a: &String, b: &String) -> (r: bool)
    ensures
        r == name_lt(a@, b@),
{
    let x = a.as_str().as_bytes();
    let y = b.as_str().as_bytes();
    let ghost xs = x@;
    let ghost ys = y@;
    let mut i: usize = 0;
    assert(xs.skip(0) =~= xs);
    assert(ys.skip(0) =~= ys);
    loop
        invariant
            xs == x@,
            ys == y@,
            xs == vstd::utf8::encode_utf8(a@),
            ys == vstd::utf8::encode_utf8(b@),
            i <= xs.len(),
            i <= ys.len(),
            bytes_lt(xs, ys) == bytes_lt(xs.skip(i as int), ys.skip(i as int)),
        decreases xs.len() - i,
    {
        if i == x.len() {
            return i < y.len();
        }
        if i == y.len() {
            return false;
        }
        if x[i] != y[i] {
            return x[i] < y[i];
        }
        assert(xs.skip(i as int).drop_first() =~= xs.skip(i + 1));
        assert(ys.skip(i as int).drop_first() =~= ys.skip(i + 1));
        i = i + 1;
    }
}


/// Relies on `slice::sort_by_key`: it permutes the elements so that their keys
/// ascend; here the key is the table's name, and `String` orders by bytes.
#[verifier::external_body]
fn sort_by_name(order: &mut Vec<usize>, tables: &Vec<TableDef>)
    requires
        forall|i: int| 0 <= i < old(order)@.len() ==> #[trigger] old(order)@[i] < tables@.len(),
    ensures
        final(order)@.len() == old(order)@.len(),
        forall|x: usize| #[trigger] final(order)@.contains(x) <==> old(order)@.contains(x),
        forall|a: int, b: int|
            0 <= a < b < final(order)@.len() ==> !name_lt(
                tables_view(tables@)[final(order)@[b] as int].id.name,
                tables_view(tables@)[final(order)@[a] as int].id.name,
            ),
{
    order.sort_by_key(|i| &tables[*i].id.name);
}

proof fn lemma_least_cyclic_unique(ts: Seq<TableV>, s: int)
    requires
        is_least_cyclic(ts, s),
    ensures
        least_cyclic(ts) == s,
{
    let c = least_cyclic(ts);
    assert(is_least_cyclic(ts, c));
    if c != s {
        assert(name_lt(ts[s].id.name, ts[c].id.name));
        assert(name_lt(ts[c].id.name, ts[s].id.name));
        lemma_bytes_lt_asym(
            vstd::utf8::encode_utf8(ts[s].id.name),
            vstd::utf8::encode_utf8(ts[c].id.name),
        );
    }
}

/// Once the walk from `x` ends within `f` steps, more fuel adds nothing.
pub proof fn lemma_chain_stable(ts: Seq<TableV>, x: int, f: nat, g: nat)
    requires
        ancestor(ts, x, f) == -1,
        f <= g,
    ensures
        chain_entries(ts, x, f) == chain_entries(ts, x, g),
    decreases f,
{
    if f > 0 && 0 <= x < ts.len() {
        lemma_ancestor_add(ts, x, 1, (f - 1) as nat);
        assert(ancestor(ts, x, 0) == x);
        assert(ancestor(ts, x, 1) == step(ts, x));
        lemma_chain_stable(ts, step(ts, x), (f - 1) as nat, (g - 1) as nat);
    } else if f == 0 {
        assert(ancestor(ts, x, 0) == x);
    }
}

fn copy_ident(i: &Ident) -> (r: Ident)
    ensures
        r@ == i@,
{
    Ident { name: i.name.clone(), span: i.span }
}

/// A copy of a column with the same model.
fn copy_column(c: &ColumnDef) -> (r: ColumnDef)
    ensures
        r@ == c@,
{
    let reference = match &c.reference {
        Some(x) => Some(
            ReferenceDef {
                operator: x.operator,
                table: copy_ident(&x.table),
                column: copy_ident(&x.column),
                span: x.span,
            },
        ),
        None => None,
    };
    ColumnDef {
        id: copy_ident(&c.id),
        typ: copy_ident(&c.typ),
        attribute: c.attribute,
        reference,
        span: c.span,
    }
}

impl Schema {
    /// Pass 1: every table name is declared once.
    fn collect_tables(&self) -> (r: Result<(), SemanticDiagnostic>)
        ensures
            match r {
                Ok(()) => first_redeclared(self@.tables) == -1,
                Err(d) => first_redeclared(self@.tables) != -1 && d@ == redeclared_diag(
                    self@.tables,
                    first_redeclared(self@.tables),
                ),
            },
    {
        let ghost ts = self@.tables;
        let mut j: usize = 0;
        while j < self.tables.len()
            invariant
                ts == self@.tables,
                j <= ts.len(),
                first_redeclared(ts) == first_where(ts.len() as int, redeclared_pred(ts), j as int),
            decreases ts.len() - j,
        {
            let t = &self.tables[j];
            let k = find_table(&self.tables, &t.id.name);
            proof {
                lemma_lookup(ts, ts[j as int].id.name);
            }
            if k != Some(j) {
                let first = k.unwrap();
                let n = t.id.name.as_str();
                let d = pair(
                    SemanticErr::TableRedeclaration,
                    cat3("table ", n, " is redeclared"),
                    self.tables[first].id.span,
                    cat3("table ", n, " is declared here"),
                    t.id.span,
                    String::from_str("but redeclared here"),
                );
                return Err(d);
            }
            j = j + 1;
        }
        Ok(())
    }

    /// Pass 2: each parent exists and is abstract.
    fn check_extension(&self) -> (r: Result<(), SemanticDiagnostic>)
        ensures
            match r {
                Ok(()) => first_bad_extension(self@.tables) == -1,
                Err(d) => first_bad_extension(self@.tables) != -1 && d@ == extension_diag(
                    self@.tables,
                    first_bad_extension(self@.tables),
                ),
            },
    {
        let ghost ts = self@.tables;
        let mut i: usize = 0;
        while i < self.tables.len()
            invariant
                ts == self@.tables,
                i <= ts.len(),
                first_bad_extension(ts) == first_where(ts.len() as int, extension_bad_pred(ts), i as int),
            decreases ts.len() - i,
        {
            let t = &self.tables[i];
            if let Some(p) = &t.extended_by {
                let n = p.name.as_str();
                match find_table(&self.tables, &p.name) {
                    None => {
                        return Err(single(SemanticErr::NonExistentParent, p.span, cat3("table ", n, " is not existed")));
                    },
                    Some(k) => {
                        if !self.tables[k].is_abstract {
                            let d = pair(
                                SemanticErr::NonAbstractParent,
                                cat3("table ", n, " is not abstract"),
                                t.span,
                                cat3("table ", n, " is referenced here"),
                                self.tables[k].span,
                                String::from_str("but it's not abstract"),
                            );
                            return Err(d);
                        }
                    },
                }
            }
            i = i + 1;
        }
        Ok(())
    }

    /// Pass 3: no chain of `extends` comes back to a table. Tables are taken
    /// in the order of their names; each one not yet known to be safe starts
    /// a walk up its chain, which stops at a table already known to be safe,
    /// at a table without parent, or at a table this walk has seen. Every
    /// table joins at most one walk that ends well, so the work is linear
    /// after the sort.
    fn check_cyclic_extension(&self) -> (r: Result<(), SemanticDiagnostic>)
        requires
            names_distinct(self@.tables),
        ensures
            match r {
                Ok(()) => first_cyclic(self@.tables) == -1,
                Err(d) => first_cyclic(self@.tables) != -1 && d@ == cycle_diag(
                    self@.tables,
                    least_cyclic(self@.tables),
                ),
            },
    {
        let ghost ts = self@.tables;
        let n = self.tables.len();
        let mut order: Vec<usize> = Vec::new();
        let mut checked: Vec<bool> = Vec::new();
        let mut stamp: Vec<usize> = Vec::new();
        while order.len() < n
            invariant
                order@.len() <= n,
                checked@.len() == order@.len(),
                stamp@.len() == order@.len(),
                forall|x: int| 0 <= x < order@.len() ==> order@[x] == x,
                forall|x: int| 0 <= x < checked@.len() ==> !checked@[x],
                forall|x: int| 0 <= x < stamp@.len() ==> stamp@[x] == 0,
            decreases n - order@.len(),
        {
            order.push(order.len());
            checked.push(false);
            stamp.push(0);
        }
        let ghost before_sort = order@;
        sort_by_name(&mut order, &self.tables);
        proof {
            assert forall|t: usize| t < n implies #[trigger] order@.contains(t) by {
                assert(before_sort[t as int] == t);
                assert(before_sort.contains(t));
            }
            assert forall|j: int| 0 <= j < n implies #[trigger] order@[j] < n by {
                assert(order@.contains(order@[j]));
                let q = choose|q: int| 0 <= q < n && before_sort[q] == order@[j];
            }
        }
        let mut k: usize = 0;
        while k < n
            invariant
                ts == self@.tables,
                n == ts.len(),
                names_distinct(ts),
                order@.len() == n,
                checked@.len() == n,
                stamp@.len() == n,
                k <= n,
                forall|t: usize| t < n ==> #[trigger] order@.contains(t),
                forall|j: int| 0 <= j < n ==> #[trigger] order@[j] < n,
                forall|a: int, b: int|
                    0 <= a < b < n ==> !name_lt(ts[order@[b] as int].id.name, ts[order@[a] as int].id.name),
                forall|j: int| 0 <= j < k ==> #[trigger] checked@[order@[j] as int],
                forall|x: int| 0 <= x < n && #[trigger] checked@[x] ==> ends(ts, x),
                forall|x: int| 0 <= x < n ==> #[trigger] stamp@[x] <= k,
            decreases n - k,
        {
            let s = order[k];
            if !checked[s] {
                let id = k + 1;
                proof {
                    assert forall|x: int| 0 <= x < n && !#[trigger] checked@[x] && x != s implies name_lt(
                        ts[s as int].id.name,
                        ts[x].id.name,
                    ) by {
                        assert(order@.contains(x as usize));
                        let j = choose|j: int| 0 <= j < n && order@[j] == x as usize;
                        if j < k {
                            assert(checked@[order@[j] as int]);
                        }
                        assert(j > k);
                        assert(!name_lt(ts[order@[j] as int].id.name, ts[order@[k as int] as int].id.name));
                        assert(ts[s as int].id.name != ts[x].id.name) by {
                            if (s as int) < x {
                                assert(ts[s as int].id.name != ts[x].id.name);
                            } else {
                                assert(ts[x].id.name != ts[s as int].id.name);
                            }
                        }
                        lemma_name_lt_total(ts[s as int].id.name, ts[x].id.name);
                    }
                }
                let ghost checked0 = checked@;
                stamp.set(s, id);
                let mut path: Vec<usize> = Vec::new();
                path.push(s);
                let mut cur: usize = s;
                let ghost mut m: nat = 0;
                assert(ancestor(ts, s as int, 0) == s as int);
                assert forall|x: int| 0 <= x < n implies (#[trigger] stamp@[x] == id <==> exists|a: nat| a <= 0 && ancestor(ts, s as int, a) == x) by {
                    if stamp@[x] == id {
                        assert(ancestor(ts, s as int, 0) == x);
                    }
                }
                loop
                    invariant_except_break
                        ts == self@.tables,
                        n == ts.len(),
                        checked@.len() == n,
                        stamp@.len() == n,
                        s < n,
                        cur < n,
                        id == k + 1,
                        k < n,
                        cur == ancestor(ts, s as int, m),
                        path@.len() == m + 1,
                        forall|a: int| 0 <= a <= m ==> #[trigger] path@[a] == ancestor(ts, s as int, a as nat),
                        forall|x: int| 0 <= x < n && #[trigger] checked@[x] ==> ends(ts, x),
                        forall|x: int| 0 <= x < n ==> (#[trigger] stamp@[x] == id <==> exists|a: nat| a <= m && ancestor(ts, s as int, a) == x),
                        forall|x: int| 0 <= x < n ==> #[trigger] stamp@[x] <= id,
                        forall|a: nat| a <= m ==> 0 <= #[trigger] ancestor(ts, s as int, a) < n,
                        forall|a: nat, b: nat| a < b <= m ==> ancestor(ts, s as int, a) != ancestor(ts, s as int, b),
                        checked@ == checked0,
                        !checked@[s as int],
                        forall|x: int| 0 <= x < n && !#[trigger] checked@[x] && x != s ==> name_lt(
                            ts[s as int].id.name,
                            ts[x].id.name,
                        ),
                    ensures
                        forall|x: int| 0 <= x < n && #[trigger] checked@[x] ==> ends(ts, x),
                        forall|x: int| 0 <= x < n && #[trigger] checked0[x] ==> checked@[x],
                        checked@[s as int],
                        checked@.len() == n,
                        stamp@.len() == n,
                        forall|x: int| 0 <= x < n ==> #[trigger] stamp@[x] <= id,
                    decreases n - m,
                {
                    proof {
                        let q = Seq::new((m + 1) as nat, |a: int| ancestor(ts, s as int, a as nat));
                        lemma_distinct_bound(q, n as int);
                    }
                    let next = step_exec(&self.tables, cur);
                    let ghost nx = ancestor(ts, s as int, m + 1);
                    assert(nx == opt_int(next));
                    let done = match next {
                        None => true,
                        Some(k2) => checked[k2],
                    };
                    if done {
                        proof {
                            assert forall|a: int| 0 <= a <= m implies ends(ts, #[trigger] path@[a] as int) by {
                                let x = path@[a] as int;
                                let d = (m + 1 - a) as nat;
                                lemma_ancestor_add(ts, s as int, a as nat, d);
                                if nx == -1 {
                                    assert(ancestor(ts, x, d) == -1);
                                } else {
                                    let j = choose|j: nat| ancestor(ts, nx, j) == -1;
                                    lemma_ancestor_add(ts, x, d, j);
                                    assert(ancestor(ts, x, d + j) == -1);
                                }
                            }
                        }
                        let mut p: usize = 0;
                        while p < path.len()
                            invariant
                                checked@.len() == n,
                                path@.len() == m + 1,
                                p <= path@.len(),
                                path@[0] == s,
                                forall|a: int| 0 <= a <= m ==> 0 <= #[trigger] path@[a] < n,
                                forall|a: int| 0 <= a <= m ==> ends(ts, #[trigger] path@[a] as int),
                                forall|y: int| 0 <= y < n && #[trigger] checked@[y] ==> ends(ts, y),
                                forall|x: int| 0 <= x < n && #[trigger] checked0[x] ==> checked@[x],
                                p > 0 ==> checked@[s as int],
                            decreases path@.len() - p,
                        {
                            checked.set(path[p], true);
                            p = p + 1;
                        }
                        break;
                    }
                    let k2 = next.unwrap();
                    if stamp[k2] == id {
                        proof {
                            let a = choose|a: nat| a <= m && ancestor(ts, s as int, a) == k2;
                            assert(first_repeat(ts, s as int, m + 1));
                            lemma_first_repeat_unique(ts, s as int, m + 1);
                            assert forall|i: nat| i <= m + 1 implies #[trigger] ancestor(ts, s as int, i) != -1 by {
                                if i <= m {
                                    assert(0 <= ancestor(ts, s as int, i));
                                }
                            }
                            lemma_repeat_never_ends(ts, s as int, a, m + 1);
                            assert forall|t: int| 0 <= t < ts.len() && !ends(ts, t) && t != s implies name_lt(
                                ts[s as int].id.name,
                                #[trigger] ts[t].id.name,
                            ) by {
                                if checked@[t] {
                                    assert(ends(ts, t));
                                }
                            }
                            assert(is_least_cyclic(ts, s as int));
                            lemma_least_cyclic_unique(ts, s as int);
                            lemma_first_where(n as int, cyclic_pred(ts), 0);
                            assert(cyclic_pred(ts)(s as int));
                        }
                        let d = single(
                            SemanticErr::CyclicRef,
                            self.tables[k2].span,
                            cat2("cyclic reference happens at ", self.tables[k2].id.name.as_str()),
                        );
                        return Err(d);
                    }
                    stamp.set(k2, id);
                    path.push(k2);
                    cur = k2;
                    proof {
                        m = m + 1;
                    }
                }
                assert forall|j: int| 0 <= j < k + 1 implies #[trigger] checked@[order@[j] as int] by {
                    if j < k {
                        assert(checked0[order@[j] as int]);
                    }
                }
            }
            k = k + 1;
        }
        proof {
            lemma_first_where(n as int, cyclic_pred(ts), 0);
            if first_cyclic(ts) != -1 {
                let t = first_cyclic(ts);
                assert(order@.contains(t as usize));
                let j = choose|j: int| 0 <= j < n && order@[j] == t as usize;
                assert(checked@[order@[j] as int]);
            }
        }
        Ok(())
    }

    /// Pass 4: the effective columns of each table, whole (name, type,
    /// attribute, reference, span): its own, then those of each ancestor up
    /// its chain of parents. A parent whose effective columns are already
    /// known is taken over instead of walked again. A name met twice on the
    /// way is a redeclaration.
    fn build_extension_context(&self) -> (r: Result<Vec<Vec<ColumnDef>>, SemanticDiagnostic>)
        requires
            first_cyclic(self@.tables) == -1,
        ensures
            match r {
                Ok(ctx) => first_redeclared_column_table(self@.tables) == -1
                    && ctx@.len() == self@.tables.len()
                    && forall|i: int| 0 <= i < ctx@.len() ==> entries_view(#[trigger] ctx@[i]@) == effective_columns(self@.tables, i),
                Err(d) => first_redeclared_column_table(self@.tables) != -1 && d@ == column_diag(
                    self@.tables,
                    first_redeclared_column_table(self@.tables),
                ),
            },
    {
        let ghost ts = self@.tables;
        let n = self.tables.len();
        proof {
            lemma_first_where(n as int, cyclic_pred(ts), 0);
            assert forall|x: int| 0 <= x < n implies ends(ts, x) by {
                assert(!cyclic_pred(ts)(x));
            }
        }
        let mut ctx: Vec<Vec<ColumnDef>> = Vec::new();
        let mut i: usize = 0;
        while i < n
            invariant
                ts == self@.tables,
                n == ts.len(),
                i <= n,
                ctx@.len() == i,
                forall|x: int| 0 <= x < n ==> ends(ts, x),
                forall|x: int| 0 <= x < i ==> entries_view(#[trigger] ctx@[x]@) == effective_columns(ts, x),
                first_redeclared_column_table(ts) == first_where(n as int, redeclared_column_pred(ts), i as int),
            decreases n - i,
        {
            let ghost eff = effective_columns(ts, i as int);
            proof {
                lemma_ends_within(ts, i as int);
            }
            let mut acc: Vec<ColumnDef> = Vec::new();
            let mut cur: Option<usize> = Some(i);
            let ghost mut k: nat = 0;
            let ghost mut spliced = false;
            assert(entries_view(acc@) + chain_entries(ts, i as int, n as nat) =~= eff);
            while cur.is_some()
                invariant
                    ts == self@.tables,
                    n == ts.len(),
                    i < n,
                    eff == effective_columns(ts, i as int),
                    ancestor(ts, i as int, n as nat) == -1,
                    !spliced ==> opt_int(cur) == ancestor(ts, i as int, k),
                    spliced ==> cur is None,
                    cur is Some ==> cur->Some_0 < n,
                    ctx@.len() == i,
                    forall|y: int| 0 <= y < i ==> entries_view(#[trigger] ctx@[y]@) == effective_columns(ts, y),
                    k <= n,
                    entries_view(acc@) + chain_entries(ts, opt_int(cur), (n - k) as nat) == eff,
                    first_redeclared_column_table(ts) == first_where(n as int, redeclared_column_pred(ts), i as int),
                    forall|p: int| 0 <= p < acc@.len() ==> !dup_at(eff, p),
                decreases n - k,
            {
                let x = cur.unwrap();
                proof {
                    if k >= n {
                        lemma_ended_stays(ts, i as int, n as nat, k);
                    }
                }
                if x < i {
                    // The effective columns of `x` are known already: take
                    // them over and stop walking.
                    let known = &ctx[x];
                    let ghost before = entries_view(acc@);
                    proof {
                        lemma_ancestor_add(ts, i as int, k, (n - k) as nat);
                        lemma_chain_stable(ts, x as int, (n - k) as nat, n as nat);
                        assert(eff == before + entries_view(known@));
                        assert forall|q: int| 0 <= q < acc@.len() implies #[trigger] eff[q] == acc@[q]@ by {
                            assert(eff[q] == before[q]);
                        }
                    }
                    let mut c: usize = 0;
                    while c < known.len()
                        invariant
                            ts == self@.tables,
                            n == ts.len(),
                            i < n,
                            c <= known@.len(),
                            eff == effective_columns(ts, i as int),
                            eff == before + entries_view(known@),
                            entries_view(acc@) =~= before + entries_view(known@).take(c as int),
                            acc@.len() == before.len() + c,
                            forall|q: int| 0 <= q < acc@.len() ==> #[trigger] eff[q] == acc@[q]@,
                            forall|p: int| 0 <= p < acc@.len() ==> !dup_at(eff, p),
                            first_redeclared_column_table(ts) == first_where(n as int, redeclared_column_pred(ts), i as int),
                        decreases known@.len() - c,
                    {
                        let e = &known[c];
                        let ghost p = acc@.len() as int;
                        assert(entries_view(known@)[c as int] == e@);
                        assert(eff[p] == entries_view(known@)[c as int]);
                        if contains_name(&acc, &e.id.name) {
                            proof {
                                let q = choose|q: int| 0 <= q < acc@.len() && acc@[q].id.name@ == e.id.name@;
                                assert(eff[q] == acc@[q]@);
                                assert(dup_at(eff, p));
                                lemma_first_where_is(eff.len() as int, dup_pred(eff), p);
                                assert(redeclared_column_pred(ts)(i as int));
                            }
                            let msg = cat3("column '", e.id.name.as_str(), "' is redeclared");
                            return Err(single(SemanticErr::ColumnRedeclaration, e.span, msg));
                        }
                        let ghost old_acc = acc@;
                        acc.push(copy_column(e));
                        proof {
                            assert(entries_view(acc@) =~= entries_view(old_acc).push(e@));
                            assert(entries_view(known@).take(c + 1) =~= entries_view(known@).take(c as int).push(e@));
                            assert forall|p2: int| 0 <= p2 < acc@.len() implies !dup_at(eff, p2) by {
                                if p2 == p {
                                    if dup_at(eff, p) {
                                        let q = choose|q: int| 0 <= q < p && eff[q].id.name == eff[p].id.name;
                                        assert(acc@[q].id.name@ == e.id.name@);
                                    }
                                }
                            }
                        }
                        c = c + 1;
                    }
                    assert(entries_view(known@).take(c as int) =~= entries_view(known@));
                    cur = None;
                    proof {
                        spliced = true;
                        k = k + 1;
                        assert(chain_entries(ts, opt_int(cur), (n - k) as nat) =~= Seq::empty());
                        assert(entries_view(acc@) + Seq::empty() =~= entries_view(acc@));
                    }
                    continue;
                }
                let ghost before = entries_view(acc@);
                let ghost rest = chain_entries(ts, step(ts, x as int), (n - k - 1) as nat);
                assert(eff == before + own_entries(ts[x as int]) + rest) by {
                    assert(before + (own_entries(ts[x as int]) + rest) =~= before + own_entries(ts[x as int]) + rest);
                }
                let columns = &self.tables[x].columns;
                assert forall|q: int| 0 <= q < acc@.len() implies #[trigger] eff[q] == acc@[q]@ by {
                    assert(eff[q] == before[q]);
                }
                let mut c: usize = 0;
                while c < columns.len()
                    invariant
                        ts == self@.tables,
                        x < n,
                        n == ts.len(),
                        columns == &self.tables@[x as int].columns,
                        c <= columns@.len(),
                        eff == before + own_entries(ts[x as int]) + rest,
                        entries_view(acc@) =~= before + own_entries(ts[x as int]).take(c as int),
                        acc@.len() == before.len() + c,
                        i < n,
                        eff == effective_columns(ts, i as int),
                        first_redeclared_column_table(ts) == first_where(n as int, redeclared_column_pred(ts), i as int),
                        forall|q: int| 0 <= q < acc@.len() ==> #[trigger] eff[q] == acc@[q]@,
                        forall|p: int| 0 <= p < acc@.len() ==> !dup_at(eff, p),
                    decreases columns@.len() - c,
                {
                    let col = &columns[c];
                    let ghost p = acc@.len() as int;
                    assert(own_entries(ts[x as int])[c as int] == col@);
                    assert(eff[p] == own_entries(ts[x as int])[c as int]);
                    if contains_name(&acc, &col.id.name) {
                        proof {
                            let q = choose|q: int| 0 <= q < acc@.len() && acc@[q].id.name@ == col.id.name@;
                            assert(eff[q] == acc@[q]@);
                            assert(dup_at(eff, p));
                            lemma_first_where_is(eff.len() as int, dup_pred(eff), p);
                            assert(redeclared_column_pred(ts)(i as int));
                        }
                        let msg = cat3("column '", col.id.name.as_str(), "' is redeclared");
                        return Err(single(SemanticErr::ColumnRedeclaration, col.span, msg));
                    }
                    let ghost old_acc = acc@;
                    acc.push(copy_column(col));
                    proof {
                        assert(entries_view(acc@) =~= entries_view(old_acc).push(col@));
                        assert(own_entries(ts[x as int]).take(c + 1) =~= own_entries(ts[x as int]).take(c as int).push(col@));
                        assert forall|p2: int| 0 <= p2 < acc@.len() implies !dup_at(eff, p2) by {
                            if p2 == p {
                                if dup_at(eff, p) {
                                    let q = choose|q: int| 0 <= q < p && eff[q].id.name == eff[p].id.name;
                                    assert(acc@[q].id.name@ == col.id.name@);
                                }
                            }
                        }
                    }
                    c = c + 1;
                }
                assert(own_entries(ts[x as int]).take(c as int) =~= own_entries(ts[x as int]));
                cur = step_exec(&self.tables, x);
                proof {
                    k = k + 1;
                    assert(entries_view(acc@) + rest =~= before + own_entries(ts[x as int]) + rest);
                }
            }
            assert(chain_entries(ts, opt_int(cur), (n - k) as nat) =~= Seq::empty());
            assert(entries_view(acc@) =~= eff);
            proof {
                assert(first_dup(eff) == -1) by {
                    lemma_first_where(eff.len() as int, dup_pred(eff), 0);
                }
            }
            ctx.push(acc);
            i = i + 1;
        }
        Ok(ctx)
    }

    /// Pass 5: every indexed name is an effective column of its table.
    fn check_indexes(&self, ctx: &Vec<Vec<ColumnDef>>) -> (r: Result<(), SemanticDiagnostic>)
        requires
            context_ok(self@.tables, ctx@),
        ensures
            match r {
                Ok(()) => first_missing_index_table(self@.tables) == -1,
                Err(d) => first_missing_index_table(self@.tables) != -1 && d@ == index_diag(
                    self@.tables,
                    first_missing_index_table(self@.tables),
                ),
            },
    {
        let ghost ts = self@.tables;
        let n = self.tables.len();
        let mut i: usize = 0;
        while i < n
            invariant
                ts == self@.tables,
                n == ts.len(),
                i <= n,
                context_ok(ts, ctx@),
                first_missing_index_table(ts) == first_where(n as int, missing_index_table_pred(ts), i as int),
            decreases n - i,
        {
            let t = &self.tables[i];
            let ghost tv = ts[i as int];
            assert(tv == t@);
            let cols = &ctx[i];
            assert(entries_view(cols@) == effective_columns(ts, i as int));
            if let Some(items) = &t.indexes {
                let ghost iv = indexes_view(items@);
                assert(indexes_of(ts[i as int]) == iv);
                let mut a: usize = 0;
                while a < items.len()
                    invariant
                        ts == self@.tables,
                        n == ts.len(),
                        i < n,
                        iv == indexes_view(items@),
                        indexes_of(ts[i as int]) == iv,
                        entries_view(cols@) == effective_columns(ts, i as int),
                        tv == ts[i as int],
                        tv == t@,
                        a <= items@.len(),
                        first_missing_index_table(ts) == first_where(n as int, missing_index_table_pred(ts), i as int),
                        first_missing_item(ts, i as int) == first_where(iv.len() as int, missing_item_pred(ts, i as int), a as int),
                    decreases items@.len() - a,
                {
                    let ghost ids_v = item_idents(iv[a as int]);
                    match &items[a] {
                        Index::Single(id, _) => {
                            if !in_entries(cols, &id.name) {
                                proof {
                                    assert(ids_v == seq![id@]);
                                    assert(missing_ident_pred(ts, i as int, a as int)(0));
                                    assert(first_missing_ident(ts, i as int, a as int) == 0);
                                    assert(missing_item_pred(ts, i as int)(a as int));
                                    assert(first_missing_item(ts, i as int) == a);
                                    assert(missing_index_table_pred(ts)(i as int));
                                    assert(first_missing_index_table(ts) == i);
                                }
                                let msg = cat5("indexed column '", id.name.as_str(), "' does not exist in table '", t.id.name.as_str(), "'");
                                return Err(single(SemanticErr::MissingIndexedColumn, id.span, msg));
                            }
                            proof {
                                assert(ids_v == seq![id@]);
                                assert(!missing_ident_pred(ts, i as int, a as int)(0));
                                assert(first_where(1, missing_ident_pred(ts, i as int, a as int), 1) == -1);
                                assert(first_missing_ident(ts, i as int, a as int) == -1);
                            }
                        },
                        Index::Composite(ids, _) => {
                            assert(ids_v == idents_view(ids@));
                            let mut b: usize = 0;
                            while b < ids.len()
                                invariant
                                    ts == self@.tables,
                                    n == ts.len(),
                                    i < n,
                                    a < iv.len(),
                                    ids_v == item_idents(iv[a as int]),
                                    ids_v == idents_view(ids@),
                                    indexes_of(ts[i as int]) == iv,
                                    entries_view(cols@) == effective_columns(ts, i as int),
                                    tv == ts[i as int],
                                    tv == t@,
                                    b <= ids@.len(),
                                    first_missing_index_table(ts) == first_where(n as int, missing_index_table_pred(ts), i as int),
                                    first_missing_item(ts, i as int) == first_where(iv.len() as int, missing_item_pred(ts, i as int), a as int),
                                    first_missing_ident(ts, i as int, a as int) == first_where(ids_v.len() as int, missing_ident_pred(ts, i as int, a as int), b as int),
                                decreases ids@.len() - b,
                            {
                                let id = &ids[b];
                                if !in_entries(cols, &id.name) {
                                    proof {
                                        assert(ids_v[b as int] == id@);
                                        assert(missing_ident_pred(ts, i as int, a as int)(b as int));
                                        assert(first_missing_ident(ts, i as int, a as int) == b);
                                        assert(missing_item_pred(ts, i as int)(a as int));
                                        assert(first_missing_item(ts, i as int) == a);
                                        assert(missing_index_table_pred(ts)(i as int));
                                        assert(first_missing_index_table(ts) == i);
                                    }
                                    let msg = cat5("indexed column '", id.name.as_str(), "' does not exist in table '", t.id.name.as_str(), "'");
                                    assert(msg@ == msg_missing_index(id.name@, ts[i as int].id.name));
                                    assert(item_idents(indexes_of(ts[i as int])[a as int])[b as int] == id@);
                                    let d = single(SemanticErr::MissingIndexedColumn, id.span, msg);
                                    assert(d@ == index_diag(ts, i as int));
                                    return Err(d);
                                }
                                proof {
                                    assert(ids_v[b as int] == id@);
                                    assert(!missing_ident_pred(ts, i as int, a as int)(b as int));
                                }
                                b = b + 1;
                            }
                        },
                    }
                    proof {
                        assert(!missing_item_pred(ts, i as int)(a as int));
                    }
                    a = a + 1;
                }
                proof {
                    assert(!missing_index_table_pred(ts)(i as int));
                }
            } else {
                proof {
                    assert(indexes_of(ts[i as int]).len() == 0);
                    assert(!missing_index_table_pred(ts)(i as int));
                }
            }
            i = i + 1;
        }
        Ok(())
    }

    /// Pass 6: every reference names an existing table and one of its
    /// effective columns.
    fn check_references(&self, ctx: &Vec<Vec<ColumnDef>>) -> (r: Result<(), SemanticDiagnostic>)
        requires
            context_ok(self@.tables, ctx@),
        ensures
            match r {
                Ok(()) => first_bad_reference_table(self@.tables) == -1,
                Err(d) => first_bad_reference_table(self@.tables) != -1 && d@ == reference_diag(
                    self@.tables,
                    first_bad_reference_table(self@.tables),
                ),
            },
    {
        let ghost ts = self@.tables;
        let n = self.tables.len();
        let mut i: usize = 0;
        while i < n
            invariant
                ts == self@.tables,
                n == ts.len(),
                i <= n,
                context_ok(ts, ctx@),
                first_bad_reference_table(ts) == first_where(n as int, bad_reference_table_pred(ts), i as int),
            decreases n - i,
        {
            let t = &self.tables[i];
            let ghost tv = ts[i as int];
            assert(tv == t@);
            let mut c: usize = 0;
            while c < t.columns.len()
                invariant
                    ts == self@.tables,
                    n == ts.len(),
                    i < n,
                    tv == ts[i as int],
                    tv == t@,
                    c <= t.columns@.len(),
                    context_ok(ts, ctx@),
                    first_bad_reference_table(ts) == first_where(n as int, bad_reference_table_pred(ts), i as int),
                    first_bad_reference(ts, i as int) == first_where(tv.columns.len() as int, bad_reference_pred(ts, i as int), c as int),
                decreases t.columns@.len() - c,
            {
                let col = &t.columns[c];
                assert(tv.columns[c as int] == col@);
                if let Some(r) = &col.reference {
                    let tn = r.table.name.as_str();
                    match find_table(&self.tables, &r.table.name) {
                        None => {
                            proof {
                                assert(bad_reference_pred(ts, i as int)(c as int));
                                assert(first_bad_reference(ts, i as int) == c);
                                assert(bad_reference_table_pred(ts)(i as int));
                                assert(first_bad_reference_table(ts) == i);
                            }
                            let msg = cat3("table '", tn, "' is not exist in the schema");
                            return Err(single(SemanticErr::MissingReferencedTable, r.span, msg));
                        },
                        Some(k) => {
                            let cols = &ctx[k];
                            assert(entries_view(cols@) == effective_columns(ts, k as int));
                            if !in_entries(cols, &r.column.name) {
                                proof {
                                    assert(bad_reference_pred(ts, i as int)(c as int));
                                    assert(first_bad_reference(ts, i as int) == c);
                                    assert(bad_reference_table_pred(ts)(i as int));
                                    assert(first_bad_reference_table(ts) == i);
                                }
                                let msg = cat5("column '", r.column.name.as_str(), "' is not existed in the table '", tn, "'");
                                return Err(single(SemanticErr::MissingReferencedColumn, r.column.span, msg));
                            }
                        },
                    }
                }
                assert(!bad_reference_pred(ts, i as int)(c as int));
                c = c + 1;
            }
            assert(!bad_reference_table_pred(ts)(i as int));
            i = i + 1;
        }
        Ok(())
    }

    /// Checks the schema against the language's static rules: unique table
    /// names, parents that exist and are abstract, no cycle of extensions, no
    /// column name twice in a table's effective columns, and indexes and
    /// references that resolve. The passes run in this order; the first that
    /// fails gives the one diagnostic returned. The schema is left as it was.
    pub fn check(&mut self) -> (r: Result<(), Vec<SemanticDiagnostic>>)
        ensures
            *final(self) == *old(self),
            match r {
                Ok(()) => check_spec(old(self)@) is Ok,
                Err(ds) => ds@.len() == 1 && check_spec(old(self)@) == Err::<(), DiagV>(ds@[0]@),
            },
    {
        match self.run_passes() {
            Ok(()) => Ok(()),
            Err(d) => Err(vec![d]),
        }
    }

    fn run_passes(&self) -> (r: Result<(), SemanticDiagnostic>)
        ensures
            match r {
                Ok(()) => check_spec(self@) is Ok,
                Err(d) => check_spec(self@) == Err::<(), DiagV>(d@),
            },
    {
        self.collect_tables()?;
        proof {
            lemma_names_distinct(self@.tables);
        }
        self.check_extension()?;
        self.check_cyclic_extension()?;
        let ctx = self.build_extension_context()?;
        self.check_indexes(&ctx)?;
        self.check_references(&ctx)?;
        Ok(())
    }
}

} // verus!
