use tegdb::sql::{parse_sql, SQLQuery};

#[test]
fn test_parse_select() {
    assert_eq!(
        parse_sql("SELECT column1, column2 FROM table"),
        Some((
            "",
            SQLQuery::Select {
                columns: vec!["column1".to_string(), "column2".to_string()],
                table: "table".to_string()
            }
        ))
    );
}

#[test]
fn test_parse_insert() {
    assert_eq!(
        parse_sql("INSERT INTO table VALUES (value1, value2)"),
        Some((
            "",
            SQLQuery::Insert {
                table: "table".to_string(),
                values: vec!["value1".to_string(), "value2".to_string()]
            }
        ))
    );
}

#[test]
fn test_parse_update() {
    assert_eq!(
        parse_sql("UPDATE table SET column1 = value1, column2 = value2"),
        Some((
            "",
            SQLQuery::Update {
                table: "table".to_string(),
                set: vec![
                    ("column1".to_string(), "value1".to_string()),
                    ("column2".to_string(), "value2".to_string())
                ]
            }
        ))
    );
}

#[test]
fn test_parse_delete() {
    assert_eq!(
        parse_sql("DELETE FROM table"),
        Some(("", SQLQuery::Delete { table: "table".to_string() }))
    );
}

#[test]
fn test_parse_rejects_garbage() {
    assert_eq!(parse_sql("DROP TABLE users"), None);
    assert_eq!(parse_sql(""), None);
    assert_eq!(parse_sql("SELECTcolumns FROM table"), None);
}

#[test]
fn test_parse_leaves_rest() {
    let (rest, q) = parse_sql("DELETE FROM t; more").expect("statement should parse");
    assert_eq!(q, SQLQuery::Delete { table: "t".to_string() });
    assert_eq!(rest, "; more");
}

#[test]
fn test_parse_identifier_chars() {
    // Identifiers may hold letters, digits and underscores; a dash ends one.
    let (rest, q) = parse_sql("DELETE FROM tab_1e-x").expect("statement should parse");
    assert_eq!(q, SQLQuery::Delete { table: "tab_1e".to_string() });
    assert_eq!(rest, "-x");
}

#[test]
fn test_parse_spacing() {
    // Tabs count as spaces, and list separators allow spaces on both sides.
    assert_eq!(
        parse_sql("SELECT a ,\tb FROM t"),
        Some((
            "",
            SQLQuery::Select {
                columns: vec!["a".to_string(), "b".to_string()],
                table: "t".to_string()
            }
        ))
    );
}

#[test]
fn test_parse_empty_value_list() {
    // A list may be empty: the parentheses alone.
    assert_eq!(
        parse_sql("INSERT INTO t VALUES ()"),
        Some((
            "",
            SQLQuery::Insert { table: "t".to_string(), values: vec![] }
        ))
    );
}

#[test]
fn test_parse_list_swallows_from_after_comma() {
    // `FROM` is itself a valid identifier, so after a trailing comma the
    // column list swallows it, no `FROM` keyword is left, and the statement
    // does not parse.
    assert_eq!(parse_sql("SELECT a, b, FROM t"), None);
}
