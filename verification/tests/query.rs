use aqua_db::catalog::{AttributeType, Catalog, Column, Schema, Table};
use aqua_db::query::{parse_number, split_bytes, ExecuteType, InsertInput, ParseError, Parser, SelectInput};
use aqua_db::storage::tuple::Attributes;

fn catalog_for(table_name: &str, int_column: &str, text_column: &str) -> Catalog {
    Catalog::new(vec![Schema {
        table: Table {
            name: table_name.to_string(),
            columns: vec![
                Column { types: "int".to_string(), name: int_column.to_string() },
                Column { types: "text".to_string(), name: text_column.to_string() },
            ],
        },
    }])
}

#[test]
fn query_parse_select() {
    let catalog = catalog_for("query_test", "number", "text");
    let p = Parser::new(&catalog);
    let query = "select * from query_test;";

    let e_type = p.parse(query).unwrap();

    assert_eq!(
        e_type,
        ExecuteType::Select(SelectInput { table_name: "query_test".to_string() })
    );
}

#[test]
fn query_parse_insert() {
    let catalog = catalog_for("query_test", "number", "text");
    let p = Parser::new(&catalog);
    let query = "insert into query_test ( number=1 text='hoge' );";

    let e_type = p.parse(query).unwrap();

    let mut attributes = Attributes::new();
    attributes.insert("number".to_string(), AttributeType::Int(1));
    attributes.insert("text".to_string(), AttributeType::Text("hoge".to_string()));

    assert_eq!(
        e_type,
        ExecuteType::Insert(InsertInput { table_name: "query_test".to_string(), attributes })
    );
}

#[test]
fn query_parse_end_with_semicolon() {
    let catalog = catalog_for("query_test", "number", "text");
    let p = Parser::new(&catalog);
    let query = "select id, name from users";

    assert!(p.parse(query).is_err());
}

#[test]
fn query_parse_not_support_type() {
    let catalog = catalog_for("query_test", "number", "text");
    let p = Parser::new(&catalog);
    let query = "update users";

    assert!(p.parse(query).is_err());
}

#[test]
fn parser_rejections() {
    let catalog = catalog_for("t", "i", "s");
    let p = Parser::new(&catalog);

    assert_eq!(p.parse("update users;"), Err(ParseError::UnknownVerb));
    assert_eq!(p.parse("select * from users"), Err(ParseError::MissingSemicolon));
    assert_eq!(p.parse(""), Err(ParseError::MissingSemicolon));
    assert_eq!(p.parse("insert into t ( i=1 );"), Err(ParseError::MissingColumn));
    assert_eq!(p.parse("insert into t ( );"), Err(ParseError::Malformed));
    assert_eq!(p.parse("insert into t ( i=1 x=2 );"), Err(ParseError::MissingColumn));
    assert_eq!(p.parse("select * from users;"), Err(ParseError::UnknownTable));
    assert_eq!(p.parse("insert into users ( i=1 s='a' );"), Err(ParseError::UnknownTable));
    assert_eq!(p.parse("select t;"), Err(ParseError::Malformed));
    assert_eq!(p.parse("select * of t;"), Err(ParseError::Malformed));
    assert_eq!(p.parse("insert into t ( i=1  s='a' );"), Err(ParseError::Malformed));
    assert_eq!(p.parse("insert into t ( i=1 i=2 s='a' );"), Err(ParseError::Malformed));
    assert_eq!(p.parse("insert into t ( i=1=2 s='a' );"), Err(ParseError::Malformed));
    assert_eq!(p.parse("insert into t ( i=one s='a' );"), Err(ParseError::TypeMismatch));
    assert_eq!(p.parse("insert into t ( i=1 s=a );"), Err(ParseError::TypeMismatch));
    assert_eq!(p.parse("insert into t ( i=2147483648 s='a' );"), Err(ParseError::TypeMismatch));
    assert_eq!(p.parse("exit now;"), Err(ParseError::Malformed));
}

#[test]
fn parser_accepts() {
    let catalog = catalog_for("t", "i", "s");
    let p = Parser::new(&catalog);

    assert_eq!(p.parse("exit;"), Ok(ExecuteType::Exit));
    assert_eq!(
        p.parse("select * from t;"),
        Ok(ExecuteType::Select(SelectInput { table_name: "t".to_string() }))
    );

    let mut attributes = Attributes::new();
    attributes.insert("s".to_string(), AttributeType::Text(String::new()));
    attributes.insert("i".to_string(), AttributeType::Int(-2147483648));
    assert_eq!(
        p.parse("insert into t ( s='' i=-2147483648 );"),
        Ok(ExecuteType::Insert(InsertInput { table_name: "t".to_string(), attributes }))
    );

    // an attribute of no column is passed over
    let mut attributes = Attributes::new();
    attributes.insert("i".to_string(), AttributeType::Int(12));
    attributes.insert("s".to_string(), AttributeType::Text("executor".to_string()));
    assert_eq!(
        p.parse("insert into t ( i=+12 s='executor' other=1 );"),
        Ok(ExecuteType::Insert(InsertInput { table_name: "t".to_string(), attributes }))
    );
}

#[test]
fn numbers_and_words() {
    assert_eq!(parse_number(b"0"), Some(0));
    assert_eq!(parse_number(b"-17"), Some(-17));
    assert_eq!(parse_number(b"+17"), Some(17));
    assert_eq!(parse_number(b"2147483647"), Some(2147483647));
    assert_eq!(parse_number(b"-2147483648"), Some(-2147483648));
    assert_eq!(parse_number(b"-2147483649"), None);
    assert_eq!(parse_number(b"99999999999999999999999"), None);
    assert_eq!(parse_number(b""), None);
    assert_eq!(parse_number(b"-"), None);
    assert_eq!(parse_number(b"1a"), None);
    assert_eq!(parse_number(b" 1"), None);

    assert_eq!(split_bytes(b"a b", b' '), vec![b"a".to_vec(), b"b".to_vec()]);
    assert_eq!(split_bytes(b"", b' '), vec![Vec::<u8>::new()]);
    assert_eq!(split_bytes(b"a  b ", b' '), vec![b"a".to_vec(), vec![], b"b".to_vec(), vec![]]);
}
