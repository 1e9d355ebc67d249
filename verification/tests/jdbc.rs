use connection_string::JdbcString;

#[test]
fn parse_sub_protocol() {
    let conn = JdbcString::parse("jdbc:sqlserver://").unwrap();
    assert_eq!(conn.sub_protocol(), "jdbc:sqlserver");
}

#[test]
fn parse_server_name() {
    let conn = JdbcString::parse(r#"jdbc:sqlserver://server"#).unwrap();
    assert_eq!(conn.sub_protocol(), "jdbc:sqlserver");
    assert_eq!(conn.server_name(), Some("server"));
}

#[test]
fn parse_instance_name() {
    let conn = JdbcString::parse(r#"jdbc:sqlserver://server\instance"#).unwrap();
    assert_eq!(conn.sub_protocol(), "jdbc:sqlserver");
    assert_eq!(conn.server_name(), Some("server"));
    assert_eq!(conn.instance_name(), Some("instance"));
}

#[test]
fn parse_port() {
    let conn = JdbcString::parse(r#"jdbc:sqlserver://server\instance:80"#).unwrap();
    assert_eq!(conn.sub_protocol(), "jdbc:sqlserver");
    assert_eq!(conn.server_name(), Some("server"));
    assert_eq!(conn.instance_name(), Some("instance"));
    assert_eq!(conn.port(), Some(80));
}

#[test]
fn parse_properties() {
    let conn = JdbcString::parse(r#"jdbc:sqlserver://server\instance:80;key=value;foo=bar"#)
        .unwrap();
    assert_eq!(conn.sub_protocol(), "jdbc:sqlserver");
    assert_eq!(conn.server_name(), Some("server"));
    assert_eq!(conn.instance_name(), Some("instance"));
    assert_eq!(conn.port(), Some(80));

    let kv = conn.properties();
    assert_eq!(kv.get("foo"), Some(&"bar".to_string()));
    assert_eq!(kv.get("key"), Some(&"value".to_string()));
}

#[test]
fn escaped_properties() {
    let conn = JdbcString::parse(r#"jdbc:sqlserver://se{r}ver{;}\instance:80;key={va[]}lue"#)
        .unwrap();
    assert_eq!(conn.sub_protocol(), "jdbc:sqlserver");
    assert_eq!(conn.server_name(), Some("server;"));
    assert_eq!(conn.instance_name(), Some("instance"));
    assert_eq!(conn.port(), Some(80));

    let kv = conn.properties();
    assert_eq!(kv.get("key"), Some(&"va[]lue".to_string()));
}

#[test]
fn sub_protocol_error() {
    let err = JdbcString::parse(r#"jdbq:sqlserver://"#).unwrap_err();
    assert_eq!(err.message(), "Conversion error: Invalid JDBC sub-protocol");
}

#[test]
fn whitespace() {
    let conn = JdbcString::parse(
        r#"jdbc:sqlserver://server\instance:80;key=value;foo=bar;user id=musti naukio"#,
    )
    .unwrap();
    assert_eq!(conn.sub_protocol(), "jdbc:sqlserver");
    assert_eq!(conn.server_name(), Some(r#"server"#));
    assert_eq!(conn.instance_name(), Some("instance"));
    assert_eq!(conn.port(), Some(80));

    let kv = conn.properties();
    assert_eq!(kv.get("user id"), Some(&"musti naukio".to_string()));
}

// Dashes and dots in the name, and names other than sqlserver.
#[test]
fn regression_2020_10_06() {
    let input = "jdbc:sqlserver://my-server.com:5433;foo=bar";
    let _conn = JdbcString::parse(input).unwrap();

    let input = "jdbc:oracle://foo.bar:1234";
    let _conn = JdbcString::parse(input).unwrap();
}

/// While strictly disallowed, we should not fail if we detect a trailing semi.
#[test]
fn regression_2020_10_07_handle_trailing_semis() {
    let input = "jdbc:sqlserver://my-server.com:5433;foo=bar;";
    let _conn = JdbcString::parse(input).unwrap();

    let input = "jdbc:sqlserver://my-server.com:4200;User ID=musti;Password={abc;}}45}";
    let conn = JdbcString::parse(input).unwrap();
    let props = conn.properties();
    assert_eq!(props.get("user id"), Some(&"musti".to_owned()));
    assert_eq!(props.get("password"), Some(&"abc;}45}".to_owned()));
}

#[test]
fn jdbc_display_with_escaping() {
    let input = r#"jdbc:sqlserver://server{;}\instance:80;key=va{[]}lue"#;
    let conn = JdbcString::parse(input).unwrap();

    assert_eq!(conn.to_string(), input);
}

// Output was being over-escaped and not split with semis, causing all
// sorts of uri failures.
#[test]
fn regression_2020_10_27_dont_escape_underscores_whitespace() {
    let input = r#"jdbc:sqlserver://test-db-mssql-2017:1433;user=SA;encrypt=DANGER_PLAINTEXT;isolationlevel=READ UNCOMMITTED;schema=NonEmbeddedUpsertDesignSpec;trustservercertificate=true;password=<YourStrong@Passw0rd>"#;
    let conn = JdbcString::parse(input).unwrap();

    let output = conn.to_string();
    let mut output: Vec<String> = output.split(';').map(|s| s.to_owned()).collect();
    output.pop();
    output.sort();

    let input = conn.to_string();
    let mut input: Vec<String> = input.split(';').map(|s| s.to_owned()).collect();
    input.pop();
    input.sort();

    assert_eq!(output, input);
}
