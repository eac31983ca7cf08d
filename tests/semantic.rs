use mecha::ast::SemanticErr;
use mecha::parser::parse;
use mecha::semantic::SemanticDiagnostic;

fn run_check(src: &str) -> Result<(), Vec<SemanticDiagnostic>> {
    let mut schema = parse("main.mecha", src).unwrap();
    schema.check()
}

fn assert_valid(src: &str) {
    if let Err(errs) = run_check(src) {
        panic!("schema validation failed unexpectedly: {}", errs[0].message);
    }
}

fn assert_invalid(src: &str) -> SemanticDiagnostic {
    match run_check(src) {
        Ok(()) => panic!("schema validation succeeded but should have failed"),
        Err(mut errs) => {
            assert_eq!(errs.len(), 1);
            errs.remove(0)
        }
    }
}

const DUPLICATED_TABLES: &str = r"
            table foo {
                id: string
            }

            table foo extends bar {
                name: uuid4
            }
        ";

const EXTEND_NON_EXISTED: &str = r"
            table foo extends bar {
                name: uuid4
            }
        ";

const EXTEND_NON_ABSTRACT: &str = r"
            table bar {
                id: string
            }

            table foo extends bar {
                name: uuid4
            }
        ";

const NORMAL_REF: &str = r"
            abstract table bar {
                id: string
            }

            table foo extends bar {
                name: uuid4
            }
        ";

const CYCLIC: &str = r"
            abstract table bar extends foo {
                id: string
            }

            abstract table foo extends bar {
                name: uuid4
            }
        ";

const CYCLIC_2: &str = r"
            abstract table bar extends foo {
                id: string
            }

            abstract table hey extends bar {
                time: timestampz
            }

            abstract table foo extends hey {
                name: uuid4
            }
        ";

const REDECLARED_COLUMN: &str = r"
            abstract table bar {
                id: string,
                name: string
            }

            table foo extends bar {
                id: timestampz
            }
        ";

const INDEXES: &str = r"
            table foo {
                id: uuid,
                name: string
                indexes {
                    id
                }
            }
        ";

const INDEXES_2: &str = r"
            table foo {
                id: uuid,
                name: string
                indexes {
                    (id, name)
                }
            }
        ";

const INDEXES_3: &str = r"
            abstract table bar {
                name: string
            }

            table foo extends bar {
                id: uuid
                indexes {
                    (id, name)
                }
            }
        ";

const INDEXES_NOT_EXIST: &str = r"
            table foo {
                id: uuid
                indexes {
                    id,
                    name
                }
            }
        ";

const REFERENCED_TABLE_NOT_EXIST: &str = r"
            table foo {
                id: uuid,
                bar_id: uuid (ref => bar.id)
                indexes {
                    id
                }
            }
        ";

const REFERENCED_COLUMN_NOT_EXIST: &str = r"
            table bar {
                name: string
            }

            table foo {
                id: uuid,
                bar_id: uuid (ref => bar.id)
                indexes {
                    id
                }
            }
        ";

const COMPLEX_PROG: &str = r"
            abstract table common {
                created_at: timestampz,
                updated_at: timestampz
            }

            table users extends common {
                id: uuid (ref => users_reading_books.user_id),
                name: string
                indexes {
                    id
                }
            }

            table books extends common {
                id: uuid (ref => users_reading_books.book_id),
                isbn_id: uuid,
                name: string
                indexes {
                    id,
                    (id, isbn_id)
                }
            }

            table users_reading_books extends common {
                user_id: uuid,
                book_id: uuid
            }
        ";

#[test]
fn semantic_test_duplicated_tables() {
    assert_invalid(DUPLICATED_TABLES);
}

#[test]
fn semantic_test_extend_non_existed_table() {
    assert_invalid(EXTEND_NON_EXISTED);
}

#[test]
fn semantic_test_extend_non_abstract_table() {
    assert_invalid(EXTEND_NON_ABSTRACT);
}

#[test]
fn semantic_test_normal_ref_tables() {
    assert_valid(NORMAL_REF);
}

#[test]
fn semantic_test_cyclic_ref_tables() {
    assert_invalid(CYCLIC);
}

#[test]
fn semantic_test_cyclic_ref_tables_2() {
    assert_invalid(CYCLIC_2);
}

#[test]
fn semantic_test_redeclared_column_ref_tables() {
    assert_invalid(REDECLARED_COLUMN);
}

#[test]
fn semantic_test_indexes() {
    assert_valid(INDEXES);
}

#[test]
fn semantic_test_indexes_2() {
    assert_valid(INDEXES_2);
}

#[test]
fn semantic_test_indexes_3() {
    assert_valid(INDEXES_3);
}

#[test]
fn semantic_test_indexes_not_exist_1() {
    assert_invalid(INDEXES_NOT_EXIST);
}

#[test]
fn semantic_test_referenced_table_not_exist_1() {
    assert_invalid(REFERENCED_TABLE_NOT_EXIST);
}

#[test]
fn semantic_test_referenced_table_column_not_exist_1() {
    assert_invalid(REFERENCED_COLUMN_NOT_EXIST);
}

#[test]
fn test_complex_prog1() {
    assert_valid(COMPLEX_PROG);
}

#[test]
fn ast_test_duplicated_tables() {
    assert_invalid(DUPLICATED_TABLES);
}

#[test]
fn ast_test_extend_non_existed_table() {
    assert_invalid(EXTEND_NON_EXISTED);
}

#[test]
fn ast_test_extend_non_abstract_table() {
    assert_invalid(EXTEND_NON_ABSTRACT);
}

#[test]
fn ast_test_normal_ref_tables() {
    assert_valid(NORMAL_REF);
}

#[test]
fn ast_test_cyclic_ref_tables() {
    assert_invalid(CYCLIC);
}

#[test]
fn ast_test_cyclic_ref_tables_2() {
    assert_invalid(CYCLIC_2);
}

#[test]
fn ast_test_redeclared_column_ref_tables() {
    assert_invalid(REDECLARED_COLUMN);
}

#[test]
fn ast_test_indexes() {
    assert_valid(INDEXES);
}

#[test]
fn ast_test_indexes_2() {
    assert_valid(INDEXES_2);
}

#[test]
fn ast_test_indexes_3() {
    assert_valid(INDEXES_3);
}

#[test]
fn ast_test_indexes_not_exist_1() {
    assert_invalid(INDEXES_NOT_EXIST);
}

#[test]
fn ast_test_referenced_table_not_exist_1() {
    assert_invalid(REFERENCED_TABLE_NOT_EXIST);
}

#[test]
fn ast_test_referenced_table_column_not_exist_1() {
    assert_invalid(REFERENCED_COLUMN_NOT_EXIST);
}

// Each kind of diagnostic, with its message and labels.

fn span_of(src: &str, needle: &str, nth: usize) -> (usize, usize) {
    let start = src.match_indices(needle).nth(nth).unwrap().0;
    (start, start + needle.len())
}

#[test]
fn redeclared_table_points_at_both_names() {
    let d = assert_invalid(DUPLICATED_TABLES);
    assert_eq!(d.kind, SemanticErr::TableRedeclaration);
    assert_eq!(d.message, "table foo is redeclared");
    assert_eq!(d.labels.len(), 2);
    assert_eq!(d.labels[0].message, "table foo is declared here");
    assert_eq!(d.labels[1].message, "but redeclared here");
    let first = span_of(DUPLICATED_TABLES, "foo", 0);
    let second = span_of(DUPLICATED_TABLES, "foo", 1);
    assert_eq!((d.labels[0].span.start, d.labels[0].span.end), first);
    assert_eq!((d.labels[1].span.start, d.labels[1].span.end), second);
}

#[test]
fn missing_parent_is_reported_at_its_name() {
    let d = assert_invalid(EXTEND_NON_EXISTED);
    assert_eq!(d.kind, SemanticErr::NonExistentParent);
    assert_eq!(d.message, "table bar is not existed");
    assert_eq!(d.labels.len(), 1);
    let bar = span_of(EXTEND_NON_EXISTED, "bar", 0);
    assert_eq!((d.labels[0].span.start, d.labels[0].span.end), bar);
}

#[test]
fn non_abstract_parent_has_two_labels() {
    let d = assert_invalid(EXTEND_NON_ABSTRACT);
    assert_eq!(d.kind, SemanticErr::NonAbstractParent);
    assert_eq!(d.labels.len(), 2);
    assert_eq!(d.labels[0].message, "table bar is referenced here");
    assert_eq!(d.labels[1].message, "but it's not abstract");
    // the second label covers the whole parent table
    let start = EXTEND_NON_ABSTRACT.find("table bar").unwrap();
    assert_eq!(d.labels[1].span.start, start);
}

#[test]
fn cycle_is_reported_where_the_walk_closes() {
    let d = assert_invalid(CYCLIC);
    assert_eq!(d.kind, SemanticErr::CyclicRef);
    // the walk starts at bar, goes to foo, and comes back to bar
    assert_eq!(d.message, "cyclic reference happens at bar");
    let d2 = assert_invalid(CYCLIC_2);
    assert_eq!(d2.kind, SemanticErr::CyclicRef);
    assert_eq!(d2.message, "cyclic reference happens at bar");
}

#[test]
fn inherited_column_redeclaration_points_at_ancestor_column() {
    let d = assert_invalid(REDECLARED_COLUMN);
    assert_eq!(d.kind, SemanticErr::ColumnRedeclaration);
    assert_eq!(d.message, "column 'id' is redeclared");
    let start = REDECLARED_COLUMN.find("id: string").unwrap();
    assert_eq!((d.labels[0].span.start, d.labels[0].span.end), (start, start + "id: string".len()));
}

#[test]
fn same_name_in_one_table_is_a_redeclaration() {
    let d = assert_invalid("table foo { id: uuid, id: string }");
    assert_eq!(d.kind, SemanticErr::ColumnRedeclaration);
    assert_eq!(d.labels[0].span.start, 22);
}

#[test]
fn missing_index_column_is_named() {
    let d = assert_invalid(INDEXES_NOT_EXIST);
    assert_eq!(d.kind, SemanticErr::MissingIndexedColumn);
    assert_eq!(d.message, "indexed column 'name' does not exist in table 'foo'");
}

#[test]
fn composite_index_with_missing_column_fails() {
    let src = "table foo { id: uuid, name: string indexes { (id, name) } }";
    assert!(run_check(src).is_ok());
    let bad = "table foo { id: uuid, name: string indexes { id, missing_col } }";
    let d = assert_invalid(bad);
    assert_eq!(d.kind, SemanticErr::MissingIndexedColumn);
    assert_eq!(d.message, "indexed column 'missing_col' does not exist in table 'foo'");
    let s = bad.find("missing_col").unwrap();
    assert_eq!((d.labels[0].span.start, d.labels[0].span.end), (s, s + 11));
}

#[test]
fn missing_reference_table_and_column() {
    let d = assert_invalid(REFERENCED_TABLE_NOT_EXIST);
    assert_eq!(d.kind, SemanticErr::MissingReferencedTable);
    assert_eq!(d.message, "table 'bar' is not exist in the schema");
    let d = assert_invalid(REFERENCED_COLUMN_NOT_EXIST);
    assert_eq!(d.kind, SemanticErr::MissingReferencedColumn);
    assert_eq!(d.message, "column 'id' is not existed in the table 'bar'");
}

#[test]
fn reference_to_inherited_column_resolves() {
    let src = "abstract table base { id: uuid } table a extends base { x: int } table b { a_id: uuid (ref == a.id) }";
    assert!(run_check(src).is_ok());
}

#[test]
fn earlier_pass_wins() {
    // both a redeclared table and a missing parent: the first pass reports
    let src = "table a { x: int } table a extends missing { y: int }";
    let d = assert_invalid(src);
    assert_eq!(d.kind, SemanticErr::TableRedeclaration);
}

#[test]
fn checking_twice_gives_the_same_outcome() {
    for src in [DUPLICATED_TABLES, CYCLIC_2, COMPLEX_PROG, INDEXES_NOT_EXIST] {
        let mut a = parse("main.mecha", src).unwrap();
        let mut b = parse("main.mecha", src).unwrap();
        let ra = a.check();
        let rb = b.check();
        let rc = a.check();
        assert_eq!(ra.is_ok(), rb.is_ok());
        assert_eq!(ra.is_ok(), rc.is_ok());
        if let (Err(x), Err(y)) = (ra, rb) {
            assert_eq!(x[0].message, y[0].message);
            assert_eq!(x[0].labels[0].span, y[0].labels[0].span);
        }
    }
}

#[test]
fn valid_schema_has_unique_names_and_ends_its_chains() {
    let mut s = parse("main.mecha", COMPLEX_PROG).unwrap();
    assert!(s.check().is_ok());
    let names: Vec<&str> = s.tables.iter().map(|t| t.id.name.as_str()).collect();
    for (i, a) in names.iter().enumerate() {
        for b in names.iter().skip(i + 1) {
            assert_ne!(a, b);
        }
    }
    for t in &s.tables {
        let mut cur = t;
        let mut steps = 0;
        while let Some(p) = &cur.extended_by {
            cur = s.tables.iter().find(|x| x.id.name == p.name).unwrap();
            steps += 1;
            assert!(steps <= s.tables.len());
        }
    }
}

#[test]
fn cycle_walks_start_in_name_order() {
    // two separate cycles; the one through the least name is reported
    let src = r"
        abstract table z1 extends z2 { a: t }
        abstract table z2 extends z1 { b: t }
        abstract table a2 extends a1 { c: t }
        abstract table a1 extends a2 { d: t }
    ";
    let d = assert_invalid(src);
    assert_eq!(d.kind, SemanticErr::CyclicRef);
    assert_eq!(d.message, "cyclic reference happens at a1");
    let start = src.find("abstract table a1").unwrap();
    assert_eq!(d.labels[0].span.start, start);
}

#[test]
fn scenario_inherited_columns_are_effective() {
    // bar's id counts as a column of foo: an index on it resolves
    let src = "abstract table bar { id: string } table foo extends bar { name: uuid4 indexes { (id, name) } }";
    assert!(run_check(src).is_ok());
    let bad = "abstract table bar { id: string } table foo extends bar { name: uuid4 indexes { other } }";
    assert_eq!(assert_invalid(bad).kind, SemanticErr::MissingIndexedColumn);
}

#[test]
fn redeclaration_found_through_a_resolved_parent() {
    // b is flattened before c, so c takes b's columns over
    let src = "abstract table a { x: t } abstract table b extends a { y: t } table c extends b { x: u }";
    let d = assert_invalid(src);
    assert_eq!(d.kind, SemanticErr::ColumnRedeclaration);
    assert_eq!(d.message, "column 'x' is redeclared");
    assert_eq!((d.labels[0].span.start, d.labels[0].span.end), (19, 23));
}
