use vstd::prelude::*;

verus! {

/// A half-open byte range `[start, end)` into the source text.
#[derive(Clone, Copy, Debug, PartialEq, Eq, Structural)]
pub struct Span {
    pub start: usize,
    pub end: usize,
}

/// An identifier occurrence together with where it was written.
#[derive(Clone, Debug)]
pub struct Ident {
    pub name: String,
    pub span: Span,
}

#[derive(Clone, Copy, Debug, PartialEq, Eq, Structural)]
pub enum RefOperator {
    OneToMany,
    OneToOne,
    ManyToMany,
}

#[derive(Clone, Debug)]
pub enum Index {
    Single(Ident, Span),
    Composite(Vec<Ident>, Span),
}

#[derive(Clone, Copy, Debug, PartialEq, Eq, Structural)]
pub enum ColumnAttribute {
    Primary,
    Unique,
}

#[derive(Debug)]
pub struct Schema {
    pub name: String,
    pub tables: Vec<TableDef>,
    pub span: Span,
}

#[derive(Clone, Debug)]
pub struct TableDef {
    pub id: Ident,
    pub is_abstract: bool,
    pub extended_by: Option<Ident>,
    pub columns: Vec<ColumnDef>,
    pub indexes: Option<Vec<Index>>,
    pub span: Span,
}

#[derive(Clone, Debug)]
pub struct ColumnDef {
    pub id: Ident,
    pub typ: Ident,
    pub attribute: Option<ColumnAttribute>,
    pub reference: Option<ReferenceDef>,
    pub span: Span,
}

#[derive(Clone, Debug)]
pub struct ReferenceDef {
    pub operator: RefOperator,
    pub table: Ident,
    pub column: Ident,
    pub span: Span,
}

/// The kinds of semantic error, one per validation rule.
#[derive(Clone, Copy, Debug, PartialEq, Eq, Structural)]
pub enum SemanticErr {
    TableRedeclaration,
    NonExistentParent,
    NonAbstractParent,
    CyclicRef,
    ColumnRedeclaration,
    MissingIndexedColumn,
    MissingReferencedTable,
    MissingReferencedColumn,
}

// Mathematical models of the syntax tree.
pub struct IdentV {
    pub name: Seq<char>,
    pub span: Span,
}

pub enum IndexV {
    Single(IdentV, Span),
    Composite(Seq<IdentV>, Span),
}

pub struct ReferenceV {
    pub operator: RefOperator,
    pub table: IdentV,
    pub column: IdentV,
    pub span: Span,
}

pub struct ColumnV {
    pub id: IdentV,
    pub typ: IdentV,
    pub attribute: Option<ColumnAttribute>,
    pub reference: Option<ReferenceV>,
    pub span: Span,
}

pub struct TableV {
    pub id: IdentV,
    pub is_abstract: bool,
    pub extended_by: Option<IdentV>,
    pub columns: Seq<ColumnV>,
    pub indexes: Option<Seq<IndexV>>,
    pub span: Span,
}

pub struct SchemaV {
    pub name: Seq<char>,
    pub tables: Seq<TableV>,
    pub span: Span,
}

impl View for Ident {
    type V = IdentV;

    open spec fn view(&self) -> IdentV {
        IdentV { name: self.name@, span: self.span }
    }
}

pub open spec fn idents_view(v: Seq<Ident>) -> Seq<IdentV> {
    v.map_values(|i: Ident| i@)
}

impl View for Index {
    type V = IndexV;

    open spec fn view(&self) -> IndexV {
        match self {
            Index::Single(id, sp) => IndexV::Single(id@, *sp),
            Index::Composite(ids, sp) => IndexV::Composite(idents_view(ids@), *sp),
        }
    }
}

impl View for ReferenceDef {
    type V = ReferenceV;

    open spec fn view(&self) -> ReferenceV {
        ReferenceV {
            operator: self.operator,
            table: self.table@,
            column: self.column@,
            span: self.span,
        }
    }
}

impl View for ColumnDef {
    type V = ColumnV;

    open spec fn view(&self) -> ColumnV {
        ColumnV {
            id: self.id@,
            typ: self.typ@,
            attribute: self.attribute,
            reference: match self.reference {
                Some(r) => Some(r@),
                None => None,
            },
            span: self.span,
        }
    }
}

pub open spec fn columns_view(v: Seq<ColumnDef>) -> Seq<ColumnV> {
    v.map_values(|c: ColumnDef| c@)
}

pub open spec fn indexes_view(v: Seq<Index>) -> Seq<IndexV> {
    v.map_values(|i: Index| i@)
}

impl View for TableDef {
    type V = TableV;

    open spec fn view(&self) -> TableV {
        TableV {
            id: self.id@,
            is_abstract: self.is_abstract,
            extended_by: match self.extended_by {
                Some(p) => Some(p@),
                None => None,
            },
            columns: columns_view(self.columns@),
            indexes: match self.indexes {
                Some(ix) => Some(indexes_view(ix@)),
                None => None,
            },
            span: self.span,
        }
    }
}

pub open spec fn tables_view(v: Seq<TableDef>) -> Seq<TableV> {
    v.map_values(|t: TableDef| t@)
}

impl View for Schema {
    type V = SchemaV;

    open spec fn view(&self) -> SchemaV {
        SchemaV { name: self.name@, tables: tables_view(self.tables@), span: self.span }
    }
}

} // verus!
