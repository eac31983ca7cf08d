use mecha::ast::{Index, Schema};
use mecha::lexer::Token;
use mecha::parser::{parse, parse_tokens};
use mecha::roundtrip::{to_source, to_tokens};

const SOURCE: &str = r"
    abstract table common {
        created_at: timestampz,
        updated_at: timestampz
    }

    table users extends common {
        id: uuid primary (ref => users_reading_books.user_id),
        name: string unique
        indexes {
            id,
            (id, name, created_at)
        }
    }

    table users_reading_books extends common {
        user_id: uuid (ref == users.id),
        book_id: uuid (ref <> users.name)
    }
";

fn shape(s: &Schema) -> String {
    let mut out = format!("{}:", s.name);
    for t in &s.tables {
        out += &format!("[{} {} {:?}", t.id.name, t.is_abstract, t.extended_by.as_ref().map(|p| p.name.clone()));
        for c in &t.columns {
            out += &format!(" ({} {} {:?}", c.id.name, c.typ.name, c.attribute);
            if let Some(r) = &c.reference {
                out += &format!(" {:?} {}.{}", r.operator, r.table.name, r.column.name);
            }
            out += ")";
        }
        if let Some(ix) = &t.indexes {
            for i in ix {
                match i {
                    Index::Single(id, _) => out += &format!(" <{}>", id.name),
                    Index::Composite(ids, _) => {
                        let names: Vec<&str> = ids.iter().map(|i| i.name.as_str()).collect();
                        out += &format!(" <{}>", names.join(","));
                    }
                }
            }
        }
        out += "]";
    }
    out
}

#[test]
fn schema_survives_tokens_and_back() {
    let mut s = parse("main.mecha", SOURCE).unwrap();
    assert!(s.check().is_ok());
    let toks = to_tokens(&s);
    assert_eq!(toks[0].0, Token::Abstract);
    assert_eq!(toks[2].0, Token::Id("common".to_string()));
    let back = parse_tokens("main.mecha", &toks, toks.len()).unwrap();
    assert_eq!(shape(&back), shape(&s));
    assert_eq!(back.tables.len(), 3);
    let mut back = back;
    assert!(back.check().is_ok());
}

#[test]
fn schema_survives_source_text_and_back() {
    let s = parse("main.mecha", SOURCE).unwrap();
    let text = to_source(&s);
    let back = parse("main.mecha", &text).unwrap();
    assert_eq!(shape(&back), shape(&s));
    // writing the re-parsed schema again gives the same text
    assert_eq!(to_source(&back), text);
}

#[test]
fn source_text_of_a_small_schema() {
    let s = parse("m", "abstract table a { id: uuid primary } table b extends a { x: t (ref => a.id) indexes { (id, x) } }").unwrap();
    assert_eq!(
        to_source(&s),
        "abstract table a { id : uuid primary } table b extends a { x : t ( ref => a . id ) indexes { ( id , x ) } } "
    );
}

#[test]
fn written_text_of_a_checked_schema_checks_again() {
    let mut s = parse("main.mecha", SOURCE).unwrap();
    assert!(s.check().is_ok());
    let mut back = parse("main.mecha", &to_source(&s)).unwrap();
    assert!(back.check().is_ok());
    // trailing index sections read back the same
    let src = "table foo { id: uuid, name: string } indexes { id, (id, name) }";
    let s = parse("m", src).unwrap();
    let back = parse("m", &to_source(&s)).unwrap();
    assert_eq!(shape(&back), shape(&s));
}
