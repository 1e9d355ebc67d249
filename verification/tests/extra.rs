use connection_string::{AdoNetString, Error, JdbcString};

// --- round trips on concrete values ---

#[test]
fn ado_round_trip_pairs() {
    let input = "Data Source=MySqlServer;User ID=admin;Password=hunter2";
    let once = AdoNetString::parse(input).unwrap();
    let again = AdoNetString::parse(&once.to_string()).unwrap();
    assert_eq!(again.len(), once.len());
    for key in once.keys() {
        assert_eq!(again.get(&key), once.get(&key));
    }
}

#[test]
fn ado_round_trip_with_specials() {
    let input = "driver=a{;=}b;path=c{/}d";
    let once = AdoNetString::parse(input).unwrap();
    let rendered = once.to_string();
    let again = AdoNetString::parse(&rendered).unwrap();
    assert_eq!(again.get("driver"), Some(&"a;=b".to_owned()));
    assert_eq!(again.get("path"), Some(&"c/d".to_owned()));
}

#[test]
fn jdbc_round_trip_fields() {
    let input = r#"jdbc:sqlserver://server\instance:80;key=value;foo=bar"#;
    let once = JdbcString::parse(input).unwrap();
    let again = JdbcString::parse(&once.to_string()).unwrap();
    assert_eq!(again.sub_protocol(), once.sub_protocol());
    assert_eq!(again.server_name(), once.server_name());
    assert_eq!(again.instance_name(), once.instance_name());
    assert_eq!(again.port(), once.port());
    assert_eq!(again.properties().get("key"), Some(&"value".to_owned()));
    assert_eq!(again.properties().get("foo"), Some(&"bar".to_owned()));
}

#[test]
fn jdbc_render_exact() {
    let input = r#"jdbc:sqlserver://server\instance:80;key=value;foo=bar"#;
    let conn = JdbcString::parse(input).unwrap();
    assert_eq!(conn.to_string(), input);
}

// --- case folding ---

#[test]
fn ado_keys_case_insensitive() {
    let ado = AdoNetString::parse("Server=x;KEY=v").unwrap();
    assert_eq!(ado.get("key"), Some(&"v".to_owned()));
    assert_eq!(ado.get("server"), Some(&"x".to_owned()));
    assert_eq!(ado.get("KEY"), None);
}

#[test]
fn jdbc_keys_case_insensitive() {
    let conn = JdbcString::parse("jdbc:sqlserver://;KEY=v").unwrap();
    assert_eq!(conn.properties().get("key"), Some(&"v".to_owned()));
    assert_eq!(conn.properties().get("KEY"), None);
}

#[test]
fn ado_duplicate_keys_last_wins() {
    let ado = AdoNetString::parse("a=1;A=2").unwrap();
    assert_eq!(ado.len(), 1);
    assert_eq!(ado.get("a"), Some(&"2".to_owned()));
}

// --- empty keys and values ---

#[test]
fn ado_empty_value_permitted() {
    let ado = AdoNetString::parse("Password=;Server=X").unwrap();
    assert_eq!(ado.get("password"), Some(&"".to_owned()));
    assert_eq!(ado.get("server"), Some(&"X".to_owned()));
}

#[test]
fn ado_empty_key_rejected() {
    let err = AdoNetString::parse("=value").unwrap_err();
    assert_eq!(err.message(), "Conversion error: Key must not be empty");
}

// --- quoting and escaping ---

#[test]
fn ado_doubled_quote_escape() {
    let ado = AdoNetString::parse(r#"key="a""b""#).unwrap();
    assert_eq!(ado.get("key"), Some(&r#"a"b"#.to_owned()));
}

#[test]
fn ado_single_quotes() {
    let ado = AdoNetString::parse("key='some value'").unwrap();
    assert_eq!(ado.get("key"), Some(&"some value".to_owned()));
}

#[test]
fn ado_unclosed_double_quote() {
    let err = AdoNetString::parse(r#"key="abc"#).unwrap_err();
    assert_eq!(err.message(), "Conversion error: unclosed double quote");
}

#[test]
fn ado_unclosed_single_quote() {
    let err = AdoNetString::parse("key='abc").unwrap_err();
    assert_eq!(err.message(), "Conversion error: unclosed single quote");
}

#[test]
fn ado_unclosed_brace() {
    let err = AdoNetString::parse("key={abc").unwrap_err();
    assert_eq!(err.message(), "Conversion error: unclosed escape literal");
}

#[test]
fn ado_missing_equals() {
    let err = AdoNetString::parse("key").unwrap_err();
    assert_eq!(
        err.message(),
        "Conversion error: key-value pairs must be joined by a `=`"
    );
}

#[test]
fn ado_missing_semicolon() {
    let err = AdoNetString::parse("a=b c=d=e").unwrap_err();
    assert_eq!(
        err.message(),
        "Conversion error: Key-value pairs must be separated by a `;`"
    );
}

#[test]
fn ado_non_ascii_rejected() {
    let err = AdoNetString::parse("key=v\u{e9}rit\u{e9}").unwrap_err();
    assert_eq!(
        err.message(),
        "Conversion error: Invalid character found: \u{e9}"
    );
}

// --- jdbc structure and errors ---

#[test]
fn jdbc_minimal_fields() {
    let conn = JdbcString::parse("jdbc:sqlserver://").unwrap();
    assert_eq!(conn.sub_protocol(), "jdbc:sqlserver");
    assert_eq!(conn.server_name(), None);
    assert_eq!(conn.instance_name(), None);
    assert_eq!(conn.port(), None);
    assert_eq!(conn.properties().len(), 0);
}

#[test]
fn jdbc_trailing_semi_equivalent() {
    let with = JdbcString::parse("jdbc:sqlserver://h:1;foo=bar;").unwrap();
    let without = JdbcString::parse("jdbc:sqlserver://h:1;foo=bar").unwrap();
    assert_eq!(with.sub_protocol(), without.sub_protocol());
    assert_eq!(with.server_name(), without.server_name());
    assert_eq!(with.port(), without.port());
    assert_eq!(with.properties().get("foo"), without.properties().get("foo"));
    assert_eq!(with.properties().len(), without.properties().len());
}

#[test]
fn jdbc_invalid_port_digits() {
    let err = JdbcString::parse("jdbc:sqlserver://h:12x4").unwrap_err();
    assert_eq!(
        err.message(),
        "Conversion error: invalid digit found in string"
    );
}

#[test]
fn jdbc_port_out_of_range() {
    let err = JdbcString::parse("jdbc:sqlserver://h:65536").unwrap_err();
    assert_eq!(
        err.message(),
        "Conversion error: number too large to fit in target type"
    );
}

#[test]
fn jdbc_port_max() {
    let conn = JdbcString::parse("jdbc:sqlserver://h:65535").unwrap();
    assert_eq!(conn.port(), Some(65535));
}

#[test]
fn jdbc_empty_port() {
    let err = JdbcString::parse("jdbc:sqlserver://h:;a=b").unwrap_err();
    assert_eq!(err.message(), "Conversion error: Invalid port");
}

#[test]
fn jdbc_empty_server_name() {
    let err = JdbcString::parse("jdbc:sqlserver://{}").unwrap_err();
    assert_eq!(err.message(), "Conversion error: Invalid server name");
}

#[test]
fn jdbc_empty_instance_name() {
    let err = JdbcString::parse(r#"jdbc:sqlserver://h\"#).unwrap_err();
    assert_eq!(err.message(), "Conversion error: Invalid instance name");
}

#[test]
fn jdbc_property_needs_equals() {
    let err = JdbcString::parse("jdbc:sqlserver://h;key").unwrap_err();
    assert_eq!(
        err.message(),
        "Conversion error: Property pairs must be joined by a `=`"
    );
}

#[test]
fn jdbc_empty_property_key() {
    let err = JdbcString::parse("jdbc:sqlserver://h;=v").unwrap_err();
    assert_eq!(err.message(), "Conversion error: Invalid property key");
}

#[test]
fn jdbc_empty_property_value() {
    let err = JdbcString::parse("jdbc:sqlserver://h;k=").unwrap_err();
    assert_eq!(err.message(), "Conversion error: Invalid property value");
}

#[test]
fn jdbc_unclosed_brace() {
    let err = JdbcString::parse("jdbc:sqlserver://{host").unwrap_err();
    assert_eq!(err.message(), "Conversion error: unclosed escape literal");
}

#[test]
fn jdbc_non_ascii_rejected() {
    let err = JdbcString::parse("jdbc:sqlserver://h\u{f8}st").unwrap_err();
    assert_eq!(
        err.message(),
        "Conversion error: Invalid JDBC token `\u{f8}`"
    );
}

// --- mutation through the property map ---

#[test]
fn jdbc_set_returns_previous_value() {
    let mut conn = JdbcString::parse("jdbc:sqlserver://h;a=1").unwrap();
    let old = conn
        .properties_mut()
        .insert("a".to_owned(), "2".to_owned());
    assert_eq!(old, Some("1".to_owned()));
    let fresh = conn
        .properties_mut()
        .insert("b".to_owned(), "3".to_owned());
    assert_eq!(fresh, None);
    assert_eq!(conn.properties().get("a"), Some(&"2".to_owned()));
    assert_eq!(conn.properties().get("b"), Some(&"3".to_owned()));
    assert_eq!(conn.properties().len(), 2);
}

#[test]
fn ado_insert_returns_previous_value() {
    let mut ado = AdoNetString::parse("a=1").unwrap();
    let old = ado.insert("a".to_owned(), "2".to_owned());
    assert_eq!(old, Some("1".to_owned()));
    assert_eq!(ado.get("a"), Some(&"2".to_owned()));
    assert_eq!(ado.keys(), vec!["a".to_owned()]);
}

// --- the error type itself ---

#[test]
fn error_message_prefix() {
    let e = Error::new("boom");
    assert_eq!(e.message(), "Conversion error: boom");
}

// --- whitespace policy ---

#[test]
fn ado_whitespace_trimmed_at_ends_kept_inside() {
    let ado = AdoNetString::parse("  key  =  a  b  ").unwrap();
    assert_eq!(ado.get("key"), Some(&"a  b".to_owned()));
}

#[test]
fn ado_newlines_skipped_in_idents() {
    let ado = AdoNetString::parse("ke\ny=va\nlue").unwrap();
    assert_eq!(ado.get("key"), Some(&"value".to_owned()));
}
