use vstd::prelude::*;

use crate::dbinfo::{locate, with_table, Dbinfo, DbinfoView, Table, TableName, TableNameView, TableView};
use crate::{Construct, Dialect, Error};

verus! {

/// What a `CREATE TABLE` statement says: the parts of its name, the table it describes (its
/// own name aside), and which of the clauses the catalog model cannot hold it carries.
#[derive(Debug)]
pub struct CreateTableStatement {
    pub name: Vec<String>,
    pub table: Table,
    pub temporary: bool,
    pub external: bool,
    pub transient: bool,
    pub table_properties: bool,
    pub stored_as: bool,
    pub location: bool,
    pub as_query: bool,
    pub clone: bool,
    pub on_cluster: bool,
    pub cluster_by: bool,
    pub like: bool,
}

/// The table name that a name of `parts` stands for under dialect `d`, if it may be written so.
pub open spec fn resolved_name(d: Dialect, parts: Seq<Seq<char>>) -> Option<TableNameView> {
    if parts.len() == 1 {
        Some(TableNameView { catalog: None, schema: None, table: parts[0] })
    } else if parts.len() == 2 {
        match d {
            Dialect::PostgreSql => Some(
                TableNameView { catalog: None, schema: Some(parts[0]), table: parts[1] },
            ),
            Dialect::MySql => Some(
                TableNameView { catalog: Some(parts[0]), schema: None, table: parts[1] },
            ),
            Dialect::SQLite => None,
        }
    } else if parts.len() == 3 && d == Dialect::PostgreSql {
        Some(TableNameView { catalog: Some(parts[0]), schema: Some(parts[1]), table: parts[2] })
    } else {
        None
    }
}

/// Resolves a name of one to three parts under `dialect`: one part is a bare table; two are
/// a schema and a table where the dialect has schemas, a catalog and a table where it has
/// only catalogs; three are catalog, schema and table where it has both.
pub fn inspect_table_name(dialect: Dialect, parts: &Vec<String>) -> (r: Result<TableName, Error>)
    ensures
        match resolved_name(dialect, parts.deep_view()) {
            Some(n) => r matches Ok(x) && x@ == n,
            None => r matches Err(Error::InvalidName),
        },
{
    if parts.len() == 1 {
        Ok(TableName { catalog: None, schema: None, table: parts[0].clone() })
    } else if parts.len() == 2 {
        match dialect {
            Dialect::PostgreSql => Ok(
                TableName { catalog: None, schema: Some(parts[0].clone()), table: parts[1].clone() },
            ),
            Dialect::MySql => Ok(
                TableName { catalog: Some(parts[0].clone()), schema: None, table: parts[1].clone() },
            ),
            Dialect::SQLite => Err(Error::InvalidName),
        }
    } else if parts.len() == 3 && dialect == Dialect::PostgreSql {
        Ok(
            TableName {
                catalog: Some(parts[0].clone()),
                schema: Some(parts[1].clone()),
                table: parts[2].clone(),
            },
        )
    } else {
        Err(Error::InvalidName)
    }
}

/// The first clause of `s`, in the order they are checked before its name is read, that
/// the catalog model cannot hold.
pub open spec fn leading_unsupported(s: CreateTableStatement) -> Option<Construct> {
    if s.temporary {
        Some(Construct::Temporary)
    } else if s.external {
        Some(Construct::External)
    } else if s.transient {
        Some(Construct::Transient)
    } else if s.table_properties {
        Some(Construct::TableProperties)
    } else if s.stored_as {
        Some(Construct::StoredAs)
    } else if s.location {
        Some(Construct::Location)
    } else if s.as_query {
        Some(Construct::AsQuery)
    } else if s.clone {
        Some(Construct::Clone)
    } else if s.on_cluster {
        Some(Construct::OnCluster)
    } else if s.cluster_by {
        Some(Construct::ClusterBy)
    } else {
        None
    }
}

/// The model after `s` is applied to `db`, or the error that rejects `s`.
pub open spec fn create_table_result(db: DbinfoView, s: CreateTableStatement) -> Result<
    DbinfoView,
    Error,
> {
    match leading_unsupported(s) {
        Some(c) => Err(Error::UnsupportedConstruct(c)),
        None => match resolved_name(db.dialect, s.name.deep_view()) {
            None => Err(Error::InvalidName),
            Some(n) => if s.like {
                Err(Error::UnsupportedConstruct(Construct::Like))
            } else {
                match locate(db, n) {
                    Err(e) => Err(e),
                    Ok((ci, si)) => Ok(
                        with_table(db, ci, si, n.table, TableView { name: n.table, ..s.table@ }),
                    ),
                }
            },
        },
    }
}

fn unsupported(c: Construct) -> (r: Result<(), Error>)
    ensures
        r matches Err(Error::UnsupportedConstruct(x)) && x == c,
{
    Err(Error::UnsupportedConstruct(c))
}

/// Adds the table that `stmt` creates to `dbinfo`, or rejects the statement and leaves
/// `dbinfo` as it was.
pub fn inspect_create_table(dbinfo: &mut Dbinfo, stmt: CreateTableStatement) -> (r: Result<
    (),
    Error,
>)
    ensures
        match create_table_result(old(dbinfo)@, stmt) {
            Ok(d) => r is Ok && final(dbinfo)@ == d,
            Err(e) => r matches Err(x) && x == e && final(dbinfo)@ == old(dbinfo)@,
        },
        old(dbinfo)@.wf() ==> final(dbinfo)@.wf(),
{
    if stmt.temporary {
        return unsupported(Construct::Temporary);
    }
    if stmt.external {
        return unsupported(Construct::External);
    }
    if stmt.transient {
        return unsupported(Construct::Transient);
    }
    if stmt.table_properties {
        return unsupported(Construct::TableProperties);
    }
    if stmt.stored_as {
        return unsupported(Construct::StoredAs);
    }
    if stmt.location {
        return unsupported(Construct::Location);
    }
    if stmt.as_query {
        return unsupported(Construct::AsQuery);
    }
    if stmt.clone {
        return unsupported(Construct::Clone);
    }
    if stmt.on_cluster {
        return unsupported(Construct::OnCluster);
    }
    if stmt.cluster_by {
        return unsupported(Construct::ClusterBy);
    }
    let table_name = match inspect_table_name(dbinfo.dialect, &stmt.name) {
        Ok(n) => n,
        Err(e) => {
            return Err(e);
        },
    };
    if stmt.like {
        return unsupported(Construct::Like);
    }
    let mut table = stmt.table;
    table.name = table_name.table.clone();
    dbinfo.add_table(&table_name, table)
}

} // verus!
