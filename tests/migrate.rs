use migi::dbinfo::{Catalog, Column, Dbinfo, Schema, Table, TableName};
use migi::migrate::{diff, AlterTableOperation, MigrationGenerator, MigrationOperation};
use migi::{Dialect, Error, Options};

fn column(name: &str) -> Column {
    Column {
        name: name.to_string(),
        data_type: "INT".to_string(),
        collation: None,
        options: vec![],
    }
}

fn table(name: &str, columns: &[&str]) -> Table {
    Table {
        name: name.to_string(),
        columns: columns.iter().map(|c| column(c)).collect(),
        constraints: vec![],
        with_options: vec![],
        without_rowid: false,
        engine: None,
        comment: None,
        auto_increment_offset: None,
        default_charset: None,
        collation: None,
        on_commit: None,
        order_by: None,
        partition_by: None,
        options: None,
        strict: false,
    }
}

fn snapshot(tables: Vec<Table>) -> Dbinfo {
    let mut db = Dbinfo::with_options(Options {
        dialect: Dialect::PostgreSql,
        database: "db".to_string(),
        default_schema: "public".to_string(),
    });
    for t in tables {
        let name = TableName {
            catalog: None,
            schema: None,
            table: t.name.clone(),
        };
        db.add_table(&name, t).unwrap();
    }
    db
}

fn describe(op: &MigrationOperation) -> String {
    match op {
        MigrationOperation::CreateDatabase { name } => format!("create database {}", name),
        MigrationOperation::DropDatabase { name } => format!("drop database {}", name),
        MigrationOperation::CreateSchema { name } => format!("create schema {}", name.0.join(".")),
        MigrationOperation::DropSchema { name } => format!("drop schema {}", name.0.join(".")),
        MigrationOperation::CreateTable { name, .. } => {
            format!("create table {}", name.0.join("."))
        }
        MigrationOperation::DropTable { name, .. } => format!("drop table {}", name.0.join(".")),
        MigrationOperation::AlterTable(a) => match a {
            AlterTableOperation::AddColumn { table, column } => {
                format!("add column {}.{}", table.0.join("."), column.name)
            }
            AlterTableOperation::DropColumn { table, column } => {
                format!("drop column {}.{}", table.0.join("."), column.name)
            }
            AlterTableOperation::AlterColumn {
                table,
                previous,
                current,
            } => {
                assert_eq!(previous.name, current.name);
                format!("alter column {}.{}", table.0.join("."), current.name)
            }
            AlterTableOperation::AddIndex => "add index".to_string(),
            AlterTableOperation::DropIndex => "drop index".to_string(),
        },
    }
}

fn run(previous: &Dbinfo, current: &Dbinfo) -> Result<Vec<String>, Error> {
    diff(previous, current).map(|m| m.operations.iter().map(describe).collect())
}

#[test]
fn diff_of_a_snapshot_with_itself_is_empty() {
    let s = snapshot(vec![table("t", &["a", "b"]), table("u", &["x"])]);
    assert_eq!(run(&s, &s).unwrap(), Vec::<String>::new());
    let empty = snapshot(vec![]);
    assert_eq!(run(&empty, &empty).unwrap(), Vec::<String>::new());
}

#[test]
fn appended_column_is_one_add() {
    let p = snapshot(vec![table("t", &["a", "b", "c"])]);
    let c = snapshot(vec![table("t", &["a", "b", "c", "d"])]);
    assert_eq!(
        run(&p, &c).unwrap(),
        vec![
            "alter column db.public.t.a",
            "alter column db.public.t.b",
            "alter column db.public.t.c",
            "add column db.public.t.d",
        ]
    );
}

#[test]
fn column_inserted_in_the_middle_is_refused() {
    let p = snapshot(vec![table("t", &["a", "b"])]);
    let c = snapshot(vec![table("t", &["a", "x", "b"])]);
    match run(&p, &c) {
        Err(Error::UnsupportedDiff(name)) => assert_eq!(name.0, vec!["db", "public", "t"]),
        other => panic!("unexpected {:?}", other),
    }
}

#[test]
fn column_inserted_in_front_is_refused() {
    let p = snapshot(vec![table("t", &["a", "b"])]);
    let c = snapshot(vec![table("t", &["x", "a", "b"])]);
    assert!(matches!(run(&p, &c), Err(Error::UnsupportedDiff(_))));
}

#[test]
fn removing_a_middle_column_is_accepted() {
    let p = snapshot(vec![table("t", &["a", "x", "b"])]);
    let c = snapshot(vec![table("t", &["a", "b"])]);
    assert_eq!(
        run(&p, &c).unwrap(),
        vec![
            "alter column db.public.t.a",
            "drop column db.public.t.x",
            "alter column db.public.t.b",
        ]
    );
}

#[test]
fn renamed_column_is_drop_and_add() {
    let p = snapshot(vec![table("t", &["a", "b"])]);
    let c = snapshot(vec![table("t", &["a", "c"])]);
    assert_eq!(
        run(&p, &c).unwrap(),
        vec![
            "alter column db.public.t.a",
            "drop column db.public.t.b",
            "add column db.public.t.c",
        ]
    );
}

#[test]
fn changed_table_attribute_alters_each_kept_column() {
    let p = snapshot(vec![table("t", &["a", "b"])]);
    let mut changed = table("t", &["a", "b"]);
    changed.engine = Some("InnoDB".to_string());
    let c = snapshot(vec![changed]);
    assert_eq!(
        run(&p, &c).unwrap(),
        vec!["alter column db.public.t.a", "alter column db.public.t.b"]
    );
}

#[test]
fn new_schema_with_table_is_created_in_order() {
    let p = snapshot(vec![]);
    let mut c = snapshot(vec![]);
    let mut db = Catalog {
        name: "db".to_string(),
        default_schema: "public".to_string(),
        schemas: vec![],
    };
    db.add_schema("public", Schema {
        name: "public".to_string(),
        tables: vec![],
    });
    db.add_schema("reporting", Schema {
        name: "reporting".to_string(),
        tables: vec![("events".to_string(), table("events", &["id"]))],
    });
    c.add_catalog("db", db);
    assert_eq!(
        run(&p, &c).unwrap(),
        vec!["create schema db.reporting", "create table db.reporting.events"]
    );
    assert_eq!(
        run(&c, &p).unwrap(),
        vec!["drop table db.reporting.events", "drop schema db.reporting"]
    );
}

#[test]
fn creations_and_drops_mirror_each_other() {
    let mut p = snapshot(vec![table("old", &["a"]), table("kept", &["a"])]);
    let mut c = snapshot(vec![table("kept", &["a"]), table("new", &["b"])]);
    p.add_catalog("gone", Catalog {
        name: "gone".to_string(),
        default_schema: "public".to_string(),
        schemas: vec![],
    });
    c.add_catalog("fresh", Catalog {
        name: "fresh".to_string(),
        default_schema: "public".to_string(),
        schemas: vec![],
    });
    let forward = run(&p, &c).unwrap();
    let backward = run(&c, &p).unwrap();
    assert_eq!(
        forward,
        vec![
            "drop database gone",
            "create database fresh",
            "drop table db.public.old",
            "create table db.public.new",
        ]
    );
    for op in &forward {
        if let Some(rest) = op.strip_prefix("create ") {
            assert!(backward.contains(&format!("drop {}", rest)));
        }
        if let Some(rest) = op.strip_prefix("drop ") {
            assert!(backward.contains(&format!("create {}", rest)));
        }
    }
}

#[test]
fn generator_starts_empty_and_matches_diff() {
    let p = snapshot(vec![table("t", &["a"])]);
    let c = snapshot(vec![table("t", &["a", "b"])]);
    let g = MigrationGenerator::new(&p, &c);
    assert!(g.migrations.operations.is_empty());
    let m = g.generate().unwrap();
    let ops: Vec<String> = m.operations.iter().map(describe).collect();
    assert_eq!(ops, vec!["alter column db.public.t.a", "add column db.public.t.b"]);
}

#[test]
fn first_refused_table_is_reported() {
    let p = snapshot(vec![table("b", &["a"]), table("c", &["a"])]);
    let c = snapshot(vec![table("b", &["x", "a"]), table("c", &["y", "a"])]);
    match run(&p, &c) {
        Err(Error::UnsupportedDiff(name)) => assert_eq!(name.0, vec!["db", "public", "b"]),
        other => panic!("unexpected {:?}", other),
    }
}

#[test]
fn changes_under_an_unchanged_default_schema_are_found() {
    let p = snapshot(vec![table("t", &["a", "b"])]);
    let c = snapshot(vec![table("t", &["a"])]);
    assert_eq!(
        run(&p, &c).unwrap(),
        vec!["alter column db.public.t.a", "drop column db.public.t.b"]
    );
}

#[test]
fn tables_are_named_by_their_keys() {
    let p = snapshot(vec![]);
    let mut c = snapshot(vec![]);
    let key = TableName {
        catalog: None,
        schema: None,
        table: "k".to_string(),
    };
    c.add_table(&key, table("own", &["a"])).unwrap();
    let m = diff(&p, &c).unwrap();
    assert_eq!(m.operations.len(), 1);
    match &m.operations[0] {
        MigrationOperation::CreateTable { name, table } => {
            assert_eq!(name.0, vec!["db", "public", "k"]);
            assert_eq!(table.name, "own");
        }
        other => panic!("unexpected {:?}", other),
    }
}
