use connection_string::AdoNetString;

fn assert_kv(ado: &AdoNetString, key: &str, value: &str) {
    assert_eq!(ado.get(&key.to_lowercase()), Some(&value.to_owned()));
}

// Windows authentication with SqlClient.
#[test]
fn windows_auth_with_sql_client() {
    let input = "Persist Security Info=False;Integrated Security=true;\nInitial Catalog=AdventureWorks;Server=MSSQL1";
    let ado = AdoNetString::parse(input).unwrap();
    assert_kv(&ado, "Persist Security Info", "False");
    assert_kv(&ado, "Integrated Security", "true");
    assert_kv(&ado, "Server", "MSSQL1");
    assert_kv(&ado, "Initial Catalog", "AdventureWorks");
}

// SQL Server authentication with SqlClient.
#[test]
fn sql_server_auth_with_sql_client() {
    let input = "Persist Security Info=False;User ID=*****;Password=*****;Initial Catalog=AdventureWorks;Server=MySqlServer";
    let ado = AdoNetString::parse(input).unwrap();
    assert_kv(&ado, "Persist Security Info", "False");
    assert_kv(&ado, "User ID", "*****");
    assert_kv(&ado, "Password", "*****");
    assert_kv(&ado, "Initial Catalog", "AdventureWorks");
    assert_kv(&ado, "Server", "MySqlServer");
}

// Connect to a named instance of SQL Server.
#[test]
fn connect_to_named_sql_server_instance() {
    let input = r#"Data Source=MySqlServer\MSSQL1;"#;
    let ado = AdoNetString::parse(input).unwrap();
    assert_kv(&ado, "Data Source", r#"MySqlServer\MSSQL1"#);
}

// OleDb connection string syntax.
#[test]
fn oledb_connection_string_syntax() {
    let input = r#"Provider=Microsoft.Jet.OLEDB.4.0; Data Source=d:\Northwind.mdb;User ID=Admin;Password=;"#;
    let ado = AdoNetString::parse(input).unwrap();
    assert_kv(&ado, "Provider", r#"Microsoft.Jet.OLEDB.4.0"#);
    assert_kv(&ado, "Data Source", r#"d:\Northwind.mdb"#);
    assert_kv(&ado, "User ID", r#"Admin"#);
    assert_kv(&ado, "Password", r#""#);

    let input = r#"Provider=Microsoft.Jet.OLEDB.4.0;Data Source=d:\Northwind.mdb;Jet OLEDB:System Database=d:\NorthwindSystem.mdw;User ID=*****;Password=*****;"#;
    let ado = AdoNetString::parse(input).unwrap();
    assert_kv(&ado, "Provider", r#"Microsoft.Jet.OLEDB.4.0"#);
    assert_kv(&ado, "Data Source", r#"d:\Northwind.mdb"#);
    assert_kv(&ado, "Jet OLEDB:System Database", r#"d:\NorthwindSystem.mdw"#);
    assert_kv(&ado, "User ID", r#"*****"#);
    assert_kv(&ado, "Password", r#"*****"#);
}

// Using DataDirectory to connect to Access/Jet.
#[test]
fn connect_to_access_jet() {
    let input = r#"Provider=Microsoft.Jet.OLEDB.4.0;
                       Data Source=|DataDirectory|\Northwind.mdb;
                       Jet OLEDB:System Database=|DataDirectory|\System.mdw;"#;
    let ado = AdoNetString::parse(input).unwrap();
    assert_kv(&ado, "Data Source", r#"|DataDirectory|\Northwind.mdb"#);
    assert_kv(&ado, "Provider", r#"Microsoft.Jet.OLEDB.4.0"#);
    assert_kv(&ado, "Jet OLEDB:System Database", r#"|DataDirectory|\System.mdw"#);
}

// Data Shape provider connection string syntax.
#[test]
fn data_shape_provider() {
    let input = r#"Provider=MSDataShape;Data Provider=SQLOLEDB;Data Source=(local);Initial Catalog=pubs;Integrated Security=SSPI;"#;
    let ado = AdoNetString::parse(input).unwrap();
    assert_kv(&ado, "Provider", r#"MSDataShape"#);
    assert_kv(&ado, "Data Provider", r#"SQLOLEDB"#);
    assert_kv(&ado, "Data Source", r#"(local)"#);
    assert_kv(&ado, "Initial Catalog", r#"pubs"#);
    assert_kv(&ado, "Integrated Security", r#"SSPI"#);
}

// ODBC connection strings with a braced value.
#[test]
fn odbc_connection_strings() {
    let input = r#"Driver={Microsoft Text Driver (*.txt; *.csv)};DBQ=d:\bin"#;
    let ado = AdoNetString::parse(input).unwrap();
    assert_kv(&ado, "Driver", r#"Microsoft Text Driver (*.txt; *.csv)"#);
    assert_kv(&ado, "DBQ", r#"d:\bin"#);
}

// Oracle connection strings.
#[test]
fn oracle_connection_strings() {
    let input = "Data Source=Oracle9i;User ID=*****;Password=*****;";
    let ado = AdoNetString::parse(input).unwrap();
    assert_kv(&ado, "Data Source", "Oracle9i");
    assert_kv(&ado, "User ID", "*****");
    assert_kv(&ado, "Password", "*****");
}

#[test]
fn ado_display_with_escaping() {
    let input = "key=val{;}ue";
    let conn = AdoNetString::parse(input).unwrap();

    assert_eq!(conn.to_string(), input);
}
