use migi::dbinfo::{Catalog, Column, Dbinfo, Schema, Table, TableName};
use migi::inspector::{inspect_create_table, inspect_table_name, CreateTableStatement};
use migi::{quote_style, Config, Construct, Dialect, Error, Options};

fn options(dialect: Dialect) -> Options {
    Options {
        dialect,
        database: "test".to_string(),
        default_schema: "public".to_string(),
    }
}

fn table(name: &str, columns: &[&str]) -> Table {
    Table {
        name: name.to_string(),
        columns: columns
            .iter()
            .map(|c| Column {
                name: c.to_string(),
                data_type: "TEXT".to_string(),
                collation: None,
                options: vec!["NOT NULL".to_string()],
            })
            .collect(),
        constraints: vec![],
        with_options: vec![],
        without_rowid: false,
        engine: None,
        comment: None,
        auto_increment_offset: None,
        default_charset: None,
        collation: None,
        on_commit: None,
        order_by: None,
        partition_by: None,
        options: None,
        strict: false,
    }
}

fn parts(p: &[&str]) -> Vec<String> {
    p.iter().map(|s| s.to_string()).collect()
}

fn statement(name: &[&str], columns: &[&str]) -> CreateTableStatement {
    CreateTableStatement {
        name: parts(name),
        table: table("", columns),
        temporary: false,
        external: false,
        transient: false,
        table_properties: false,
        stored_as: false,
        location: false,
        as_query: false,
        clone: false,
        on_cluster: false,
        cluster_by: false,
        like: false,
    }
}

fn bare(name: &str) -> TableName {
    TableName {
        catalog: None,
        schema: None,
        table: name.to_string(),
    }
}

#[test]
fn config_without_dialect_is_refused() {
    let c = Config {
        dialect: None,
        database: "db".to_string(),
        default_schema: None,
        paths: vec![],
    };
    assert!(matches!(c.to_options(), Err(Error::DialectRequired)));
}

#[test]
fn config_without_database_is_refused() {
    let c = Config {
        dialect: Some(Dialect::MySql),
        database: String::new(),
        default_schema: None,
        paths: vec![],
    };
    assert!(matches!(c.to_options(), Err(Error::DatabaseRequired)));
}

#[test]
fn config_default_schema_is_public() {
    let c = Config {
        dialect: Some(Dialect::PostgreSql),
        database: "db".to_string(),
        default_schema: None,
        paths: vec!["a.sql".to_string()],
    };
    let o = c.to_options().unwrap();
    assert_eq!(o.dialect, Dialect::PostgreSql);
    assert_eq!(o.database, "db");
    assert_eq!(o.default_schema, "public");
    let c = Config {
        default_schema: Some("main".to_string()),
        ..c
    };
    assert_eq!(c.to_options().unwrap().default_schema, "main");
}

#[test]
fn new_model_has_default_catalog_and_schema() {
    let db = Dbinfo::with_options(options(Dialect::PostgreSql));
    assert_eq!(db.default_catalog, "test");
    let catalog = db.get_catalog("test").unwrap();
    assert_eq!(catalog.default_schema, "public");
    assert!(catalog.get_schema("public").unwrap().tables.is_empty());
    assert!(matches!(db.get_catalog("other"), Err(Error::CatalogNotFound)));
    assert!(matches!(catalog.get_schema("other"), Err(Error::SchemaNotFound)));
    assert!(matches!(db.get_table(&bare("t")), Err(Error::TableNotFound)));
}

#[test]
fn added_table_is_found_by_any_qualification() {
    let mut db = Dbinfo::with_options(options(Dialect::PostgreSql));
    db.add_table(&bare("t"), table("t", &["id", "name"])).unwrap();
    let t = db.get_table(&bare("t")).unwrap();
    assert_eq!(t.columns.len(), 2);
    assert_eq!(t.columns[0].name, "id");
    assert_eq!(t.columns[1].name, "name");
    let full = TableName {
        catalog: Some("test".to_string()),
        schema: Some("public".to_string()),
        table: "t".to_string(),
    };
    assert_eq!(db.get_table(&full).unwrap(), t);
    let schema = db.get_catalog("test").unwrap().get_schema("public").unwrap();
    assert_eq!(schema.get_table("t").unwrap().name, "t");
}

#[test]
fn added_table_replaces_one_of_the_same_name() {
    let mut db = Dbinfo::with_options(options(Dialect::PostgreSql));
    db.add_table(&bare("t"), table("t", &["a"])).unwrap();
    db.add_table(&bare("t"), table("other", &["b", "c"])).unwrap();
    let schema = db.get_catalog("test").unwrap().get_schema("public").unwrap();
    assert_eq!(schema.tables.len(), 1);
    assert_eq!(schema.tables[0].0, "t");
    assert_eq!(schema.tables[0].1.name, "other");
    assert_eq!(schema.tables[0].1.columns.len(), 2);
    assert_eq!(db.get_table(&bare("t")).unwrap(), &table("other", &["b", "c"]));
}

#[test]
fn adding_to_a_missing_catalog_or_schema_fails() {
    let mut db = Dbinfo::with_options(options(Dialect::PostgreSql));
    let in_catalog = TableName {
        catalog: Some("nope".to_string()),
        schema: None,
        table: "t".to_string(),
    };
    assert!(matches!(
        db.add_table(&in_catalog, table("t", &["a"])),
        Err(Error::CatalogNotFound)
    ));
    let in_schema = TableName {
        catalog: None,
        schema: Some("nope".to_string()),
        table: "t".to_string(),
    };
    assert!(matches!(
        db.add_table(&in_schema, table("t", &["a"])),
        Err(Error::SchemaNotFound)
    ));
    assert!(matches!(db.get_table(&in_schema), Err(Error::SchemaNotFound)));
    assert!(db.get_catalog("test").unwrap().get_schema("public").unwrap().tables.is_empty());
}

#[test]
fn add_catalog_and_schema_replace_by_name() {
    let mut db = Dbinfo::with_options(options(Dialect::MySql));
    let mut other = Catalog {
        name: "other".to_string(),
        default_schema: "main".to_string(),
        schemas: vec![],
    };
    other.add_schema("main", Schema {
        name: "main".to_string(),
        tables: vec![],
    });
    other.add_schema("main", Schema {
        name: "elsewhere".to_string(),
        tables: vec![("x".to_string(), table("x", &["a"]))],
    });
    assert_eq!(other.schemas.len(), 1);
    assert_eq!(other.schemas[0].0, "main");
    assert_eq!(other.schemas[0].1.name, "elsewhere");
    db.add_catalog("other", other);
    assert_eq!(db.catalogs.len(), 2);
    let name = TableName {
        catalog: Some("other".to_string()),
        schema: None,
        table: "x".to_string(),
    };
    assert_eq!(db.get_table(&name).unwrap().columns[0].name, "a");
}

#[test]
fn three_part_names_need_postgres() {
    let n = inspect_table_name(Dialect::PostgreSql, &parts(&["catalog", "schema", "table"]))
        .unwrap();
    assert_eq!(n.catalog.as_deref(), Some("catalog"));
    assert_eq!(n.schema.as_deref(), Some("schema"));
    assert_eq!(n.table, "table");
    for d in [Dialect::MySql, Dialect::SQLite] {
        assert!(matches!(
            inspect_table_name(d, &parts(&["catalog", "schema", "table"])),
            Err(Error::InvalidName)
        ));
    }
}

#[test]
fn two_part_names_follow_the_dialect() {
    let pg = inspect_table_name(Dialect::PostgreSql, &parts(&["s", "t"])).unwrap();
    assert_eq!((pg.catalog, pg.schema.as_deref(), pg.table.as_str()), (None, Some("s"), "t"));
    let my = inspect_table_name(Dialect::MySql, &parts(&["c", "t"])).unwrap();
    assert_eq!((my.catalog.as_deref(), my.schema, my.table.as_str()), (Some("c"), None, "t"));
    assert!(matches!(
        inspect_table_name(Dialect::SQLite, &parts(&["c", "t"])),
        Err(Error::InvalidName)
    ));
}

#[test]
fn one_part_names_are_bare_and_other_lengths_fail() {
    for d in [Dialect::PostgreSql, Dialect::MySql, Dialect::SQLite] {
        let n = inspect_table_name(d, &parts(&["t"])).unwrap();
        assert_eq!((n.catalog, n.schema, n.table.as_str()), (None, None, "t"));
        assert!(matches!(inspect_table_name(d, &parts(&[])), Err(Error::InvalidName)));
        assert!(matches!(
            inspect_table_name(d, &parts(&["a", "b", "c", "d"])),
            Err(Error::InvalidName)
        ));
    }
}

#[test]
fn create_table_statement_adds_the_table() {
    let mut db = Dbinfo::with_options(options(Dialect::PostgreSql));
    inspect_create_table(&mut db, statement(&["public", "t"], &["id", "name"])).unwrap();
    let t = db.get_table(&bare("t")).unwrap();
    assert_eq!(t.name, "t");
    assert_eq!(t.columns[1].name, "name");
}

#[test]
fn create_table_rejections_come_in_order() {
    let mut db = Dbinfo::with_options(options(Dialect::SQLite));
    let mut s = statement(&["a", "b"], &["id"]);
    s.temporary = true;
    s.like = true;
    assert!(matches!(
        inspect_create_table(&mut db, s),
        Err(Error::UnsupportedConstruct(Construct::Temporary))
    ));
    let mut s = statement(&["a", "b"], &["id"]);
    s.like = true;
    assert!(matches!(inspect_create_table(&mut db, s), Err(Error::InvalidName)));
    let mut s = statement(&["t"], &["id"]);
    s.like = true;
    assert!(matches!(
        inspect_create_table(&mut db, s),
        Err(Error::UnsupportedConstruct(Construct::Like))
    ));
    let mut s = statement(&["t"], &["id"]);
    s.cluster_by = true;
    assert!(matches!(
        inspect_create_table(&mut db, s),
        Err(Error::UnsupportedConstruct(Construct::ClusterBy))
    ));
    assert!(matches!(db.get_table(&bare("t")), Err(Error::TableNotFound)));
}

#[test]
fn create_table_in_missing_schema_fails() {
    let mut db = Dbinfo::with_options(options(Dialect::PostgreSql));
    assert!(matches!(
        inspect_create_table(&mut db, statement(&["nope", "t"], &["id"])),
        Err(Error::SchemaNotFound)
    ));
}

#[test]
fn mutable_lookups_change_the_model_in_place() {
    let mut db = Dbinfo::with_options(options(Dialect::PostgreSql));
    db.add_table(&bare("t"), table("t", &["a"])).unwrap();
    let catalog = db.get_catalog_mut("test").unwrap();
    let schema = catalog.get_schema_mut("public").unwrap();
    schema.get_table_mut("t").unwrap().strict = true;
    assert!(matches!(schema.get_table_mut("u"), Err(Error::TableNotFound)));
    assert!(db.get_table(&bare("t")).unwrap().strict);
    assert!(matches!(db.get_catalog_mut("x"), Err(Error::CatalogNotFound)));
    let catalog = db.get_catalog_mut("test").unwrap();
    assert!(matches!(catalog.get_schema_mut("x"), Err(Error::SchemaNotFound)));
}

#[test]
fn identifiers_are_quoted_per_dialect() {
    assert_eq!(quote_style(Dialect::PostgreSql), '"');
    assert_eq!(quote_style(Dialect::MySql), '`');
    assert_eq!(quote_style(Dialect::SQLite), '`');
}
