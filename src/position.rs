use vstd::prelude::*;
use crate::ast::{ColumnV, Schema, Span, TableV};
use crate::lexer::is_continuation;

verus! {

/// Line and column (both counted from 0, the column in characters) of the
/// character that starts at byte `k` of the UTF-8 bytes `b`.
pub open spec fn line_col(b: Seq<u8>, k: int) -> (nat, nat)
    decreases k,
{
    if k <= 0 {
        (0, 0)
    } else {
        let (l, c) = line_col(b, k - 1);
        if b[k - 1] == 10 {
            (l + 1, 0)
        } else if is_continuation(b[k - 1]) {
            (l, c)
        } else {
            (l, c + 1)
        }
    }
}

pub proof fn lemma_line_col_bound(b: Seq<u8>, k: int)
    requires
        0 <= k,
    ensures
        line_col(b, k).0 + line_col(b, k).1 <= k,
    decreases k,
{
    if k > 0 {
        lemma_line_col_bound(b, k - 1);
    }
}

/// Line and column of byte offset `index` in `text`; an offset past the end
/// gives the position just after the last character.
pub fn byte_index_to_line_col(text: &str, index: usize) -> (r: (u32, u32))
    requires
        vstd::utf8::encode_utf8(text@).len() <= u32::MAX,
    ensures
        (r.0 as nat, r.1 as nat) == line_col(
            vstd::utf8::encode_utf8(text@),
            if index < vstd::utf8::encode_utf8(text@).len() {
                index as int
            } else {
                vstd::utf8::encode_utf8(text@).len() as int
            },
        ),
{
    let b = text.as_bytes();
    let ghost bs = b@;
    let end = if index < b.len() {
        index
    } else {
        b.len()
    };
    let mut line: u32 = 0;
    let mut col: u32 = 0;
    let mut i: usize = 0;
    while i < end
        invariant
            bs == b@,
            bs == vstd::utf8::encode_utf8(text@),
            end <= bs.len() <= u32::MAX,
            i <= end,
            (line as nat, col as nat) == line_col(bs, i as int),
        decreases end - i,
    {
        proof {
            lemma_line_col_bound(bs, i as int);
        }
        let c = b[i];
        if c == 10 {
            line = line + 1;
            col = 0;
        } else if !(c >= 128 && c < 192) {
            col = col + 1;
        }
        i = i + 1;
    }
    (line, col)
}

/// A highlighted name: line, column, length in bytes and kind (0 for a table,
/// 1 for a column, 2 for a column's type).
pub open spec fn highlight(b: Seq<u8>, sp: Span, kind: u32) -> (u32, u32, u32, u32) {
    let (l, c) = line_col(b, if sp.start < b.len() { sp.start as int } else { b.len() as int });
    (
        l as u32,
        c as u32,
        if sp.start <= sp.end { (sp.end - sp.start) as u32 } else { 0 },
        kind,
    )
}

pub open spec fn column_highlights(b: Seq<u8>, cs: Seq<ColumnV>) -> Seq<(u32, u32, u32, u32)>
    decreases cs.len(),
{
    if cs.len() == 0 {
        Seq::empty()
    } else {
        column_highlights(b, cs.drop_last()) + seq![
            highlight(b, cs.last().id.span, 1),
            highlight(b, cs.last().typ.span, 2),
        ]
    }
}

pub open spec fn table_highlights(b: Seq<u8>, ts: Seq<TableV>) -> Seq<(u32, u32, u32, u32)>
    decreases ts.len(),
{
    if ts.len() == 0 {
        Seq::empty()
    } else {
        table_highlights(b, ts.drop_last()) + seq![highlight(b, ts.last().id.span, 0)]
            + column_highlights(b, ts.last().columns)
    }
}

fn highlight_of(text: &str, sp: Span, kind: u32) -> (r: (u32, u32, u32, u32))
    requires
        vstd::utf8::encode_utf8(text@).len() <= u32::MAX,
    ensures
        r == highlight(vstd::utf8::encode_utf8(text@), sp, kind),
{
    let (l, c) = byte_index_to_line_col(text, sp.start);
    let len: u32 = if sp.start <= sp.end {
        (sp.end - sp.start) as u32
    } else {
        0
    };
    (l, c, len, kind)
}

/// The names to highlight in a schema, in the order of the schema: each
/// table's name, then each of its columns' name and type.
pub fn highlights(text: &str, schema: &Schema) -> (r: Vec<(u32, u32, u32, u32)>)
    requires
        vstd::utf8::encode_utf8(text@).len() <= u32::MAX,
    ensures
        r@ == table_highlights(vstd::utf8::encode_utf8(text@), schema@.tables),
{
    let ghost b = vstd::utf8::encode_utf8(text@);
    let ghost ts = schema@.tables;
    let mut out: Vec<(u32, u32, u32, u32)> = Vec::new();
    let mut i: usize = 0;
    while i < schema.tables.len()
        invariant
            b == vstd::utf8::encode_utf8(text@),
            b.len() <= u32::MAX,
            ts == schema@.tables,
            i <= ts.len(),
            out@ == table_highlights(b, ts.take(i as int)),
        decreases ts.len() - i,
    {
        let t = &schema.tables[i];
        assert(ts.take(i + 1).drop_last() =~= ts.take(i as int));
        assert(ts[i as int] == t@);
        out.push(highlight_of(text, t.id.span, 0));
        let ghost base = out@;
        let mut c: usize = 0;
        while c < t.columns.len()
            invariant
                b == vstd::utf8::encode_utf8(text@),
                b.len() <= u32::MAX,
                c <= t.columns@.len(),
                t@.columns.len() == t.columns@.len(),
                out@ == base + column_highlights(b, t@.columns.take(c as int)),
            decreases t.columns@.len() - c,
        {
            let col = &t.columns[c];
            assert(t@.columns.take(c + 1).drop_last() =~= t@.columns.take(c as int));
            assert(t@.columns[c as int] == col@);
            out.push(highlight_of(text, col.id.span, 1));
            out.push(highlight_of(text, col.typ.span, 2));
            c = c + 1;
        }
        assert(t@.columns.take(c as int) =~= t@.columns);
        assert(out@ =~= table_highlights(b, ts.take(i as int)) + seq![highlight(b, t@.id.span, 0)]
            + column_highlights(b, t@.columns));
        i = i + 1;
    }
    assert(ts.take(i as int) =~= ts);
    out
}

/// Highlights ordered by line, then column.
pub open spec fn ordered(v: Seq<(u32, u32, u32, u32)>) -> bool {
    forall|i: int, j: int|
        0 <= i < j < v.len() ==> (v[i].0 < v[j].0 || (v[i].0 == v[j].0 && v[i].1 <= v[j].1))
}

/// Relies on `slice::sort_by_key`: a stable sort, here by line and column,
/// that keeps every element.
#[verifier::external_body]
fn sort_by_position(v: &mut Vec<(u32, u32, u32, u32)>)
    ensures
        ordered(final(v)@),
        final(v)@.to_multiset() == old(v)@.to_multiset(),
{
    v.sort_by_key(|t| (t.0, t.1));
}

/// One highlight relative to the one before it (at line 0, column 0 for the
/// first): the line difference, the column difference on the same line or
/// else the column, then length and kind.
pub open spec fn delta(prev: (u32, u32, u32, u32), cur: (u32, u32, u32, u32), first: bool) -> (u32, u32, u32, u32) {
    let pl = if first { 0 } else { prev.0 };
    let pc = if first { 0 } else { prev.1 };
    let dl = (cur.0 - pl) as u32;
    (dl, if dl == 0 { (cur.1 - pc) as u32 } else { cur.1 }, cur.2, cur.3)
}

pub open spec fn delta_encoding(v: Seq<(u32, u32, u32, u32)>) -> Seq<(u32, u32, u32, u32)> {
    Seq::new(v.len(), |i: int| delta(if i > 0 { v[i - 1] } else { v[0] }, v[i], i == 0))
}

/// Encodes ordered highlights relative to each other.
pub fn delta_encode(v: &Vec<(u32, u32, u32, u32)>) -> (r: Vec<(u32, u32, u32, u32)>)
    requires
        ordered(v@),
    ensures
        r@ == delta_encoding(v@),
{
    let mut out: Vec<(u32, u32, u32, u32)> = Vec::new();
    let mut pre_line: u32 = 0;
    let mut pre_start: u32 = 0;
    let mut i: usize = 0;
    while i < v.len()
        invariant
            ordered(v@),
            i <= v@.len(),
            out@.len() == i,
            forall|k: int| 0 <= k < i ==> out@[k] == #[trigger] delta_encoding(v@)[k],
            i > 0 ==> pre_line == v@[i - 1].0 && pre_start == v@[i - 1].1,
            i == 0 ==> pre_line == 0 && pre_start == 0,
        decreases v@.len() - i,
    {
        let (line, col, len, kind) = v[i];
        let delta_line = line - pre_line;
        let delta_start = if delta_line == 0 {
            col - pre_start
        } else {
            col
        };
        out.push((delta_line, delta_start, len, kind));
        pre_line = line;
        pre_start = col;
        i = i + 1;
    }
    assert(out@ =~= delta_encoding(v@));
    out
}

/// The highlights of a schema, ordered by position and encoded relative to
/// each other: the encoding of some ordering of `highlights`.
pub fn semantic_tokens(text: &str, schema: &Schema) -> (r: Vec<(u32, u32, u32, u32)>)
    requires
        vstd::utf8::encode_utf8(text@).len() <= u32::MAX,
    ensures
        exists|s: Seq<(u32, u32, u32, u32)>|
            ordered(s) && s.to_multiset() == table_highlights(vstd::utf8::encode_utf8(text@), schema@.tables).to_multiset()
                && r@ == delta_encoding(s),
{
    let mut raw = highlights(text, schema);
    sort_by_position(&mut raw);
    delta_encode(&raw)
}

} // verus!
