use order_desk::bytes::{eq_ignore_case, find_ci, is_ws, skip_ws, to_lower, trim_ascii};
use order_desk::sql::{
    clean_ident, create_table_columns, parse_insert_head, parse_sql_value, skip_statement,
    split_top_level_commas, split_tuple_values, split_value_tuples,
};

#[test]
fn byte_helpers() {
    assert!(is_ws(b' ') && is_ws(b'\t') && is_ws(b'\r') && is_ws(b'\n'));
    assert!(!is_ws(b'x') && !is_ws(0x0b));
    assert_eq!(to_lower(b'Q'), b'q');
    assert_eq!(to_lower(b'q'), b'q');
    assert_eq!(to_lower(b'['), b'[');
    assert!(eq_ignore_case(b"Insert Into", b"INSERT INTO"));
    assert!(!eq_ignore_case(b"INSERT", b"INSERT "));
    assert_eq!(skip_ws(b"  \t\nx", 0), 4);
    assert_eq!(skip_ws(b"   ", 1), 3);
    assert_eq!(skip_ws(b"ab", 5), 5);
    assert_eq!(trim_ascii(b" \t a b \r\n"), b"a b");
    assert_eq!(trim_ascii(b"   "), b"");
}

#[test]
fn find_ci_finds_the_first_match_ignoring_case() {
    assert_eq!(find_ci(b"xx insert into yy INSERT INTO", b"INSERT INTO"), Some(3));
    assert_eq!(find_ci(b"values", b"VALUES"), Some(0));
    assert_eq!(find_ci(b"valu", b"VALUES"), None);
    assert_eq!(find_ci(b"abc", b""), None);
    assert_eq!(find_ci(b"", b"a"), None);
}

#[test]
fn statements_end_after_an_unquoted_semicolon() {
    let sql = b"('a;b', 'it''s;') ; rest";
    assert_eq!(skip_statement(sql, 0), 19);
    assert_eq!(skip_statement(b"no end", 2), 6);
    assert_eq!(skip_statement(b"'open; string", 0), 13);
}

#[test]
fn commas_split_only_at_top_level() {
    let body = b"1, 'a,b', f(2,3), ''";
    let pieces = split_top_level_commas(body);
    assert_eq!(pieces, vec![&b"1"[..], b" 'a,b'", b" f(2,3)", b" ''"]);
    assert_eq!(pieces.join(&b","[..]), body.to_vec());
    assert_eq!(split_top_level_commas(b""), vec![&b""[..]]);
    assert_eq!(split_top_level_commas(b"a),b"), vec![&b"a)"[..], b"b"]);
}

#[test]
fn sql_values_are_unquoted_and_trimmed() {
    assert_eq!(parse_sql_value(b" NULL "), None);
    assert_eq!(parse_sql_value(b"null"), None);
    assert_eq!(parse_sql_value(b"''"), None);
    assert_eq!(parse_sql_value(b"   "), None);
    assert_eq!(parse_sql_value(b"' \xe3\x80\x80x\xe3\x80\x80 '"), Some("x".to_string()));
    assert_eq!(parse_sql_value(b" 12.50 "), Some("12.50".to_string()));
    assert_eq!(parse_sql_value(b"'a\\%b'"), Some("a\\%b".to_string()));
    assert_eq!(parse_sql_value(b"'\xff'"), Some("\u{fffd}".to_string()));
    assert_eq!(
        split_tuple_values(b"1,'x',NULL"),
        vec![Some("1".to_string()), Some("x".to_string()), None]
    );
}

#[test]
fn value_tuples_stop_at_the_statement_end() {
    let sql = b" (1,'a'),(2,'b;'); (3,'c');";
    let (rows, end) = split_value_tuples(sql, 0);
    assert_eq!(rows.len(), 2);
    assert_eq!(rows[1], vec![Some("2".to_string()), Some("b;".to_string())]);
    assert_eq!(end, 18);
    let sql = b" (1) insert into t VALUES (2)";
    let (rows, end) = split_value_tuples(sql, 0);
    assert_eq!(rows.len(), 1);
    assert_eq!(end, 5);
    let (rows, _) = split_value_tuples(b" ((1),(2)), (3)", 0);
    assert_eq!(rows, vec![vec![Some("(1)".to_string()), Some("(2)".to_string())], vec![Some("3".to_string())]]);
}

#[test]
fn insert_heads_name_the_table_and_columns() {
    let sql = b"insert into t_job (`a`, 'b' , \"c\", ``) values (1)";
    let (table, cols, at) = parse_insert_head(sql, 0).unwrap();
    assert_eq!(table, "t_job");
    assert_eq!(cols, vec!["a", "b", "c"]);
    assert_eq!(&sql[at..], b" (1)");
    let sql = b"INSERT INTO   `my table` VALUES(1)";
    let (table, cols, _) = parse_insert_head(sql, 0).unwrap();
    assert_eq!(table, "my table");
    assert!(cols.is_empty());
    assert!(parse_insert_head(b"INSERT INTO (x) VALUES (1)", 0).is_none());
    assert!(parse_insert_head(b"INSERT INTO t (x)", 0).is_none());
    assert!(parse_insert_head(b"INSERT INTO `t (x) VALUES (1)", 0).is_none());
    assert!(parse_insert_head(b"UPDATE t", 0).is_none());
}

#[test]
fn identifiers_lose_their_quotes() {
    assert_eq!(clean_ident(b"  `mJob_No` "), "mJob_No");
    assert_eq!(clean_ident(b"'\"x\"'"), "x");
    assert_eq!(clean_ident(b"``"), "");
}

#[test]
fn create_table_columns_edge_cases() {
    assert!(create_table_columns("CREATE TABLE `t_job`;(`a`)", "t_job").is_empty());
    assert!(create_table_columns("CREATE TABLE `other` (`a` int)", "t_job").is_empty());
    assert_eq!(
        create_table_columns("create table `T_JOB` ( `x` varchar(3) default 'a,b', `y` int)", "t_job"),
        vec!["x", "y"]
    );
}
