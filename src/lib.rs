use vstd::prelude::*;

pub mod dbinfo;
pub mod inspector;
pub mod migrate;
pub mod mirror;

verus! {

/// The SQL dialect a catalog is written in; it governs how identifiers are qualified.
#[derive(Debug, Copy, Clone, PartialEq, Eq, Structural)]
pub enum Dialect {
    PostgreSql,
    MySql,
    SQLite,
}

/// The character that quotes identifiers in `d`.
pub fn quote_style(d: Dialect) -> (r: char)
    ensures
        r == match d {
            Dialect::PostgreSql => '"',
            Dialect::MySql => '`',
            Dialect::SQLite => '`',
        },
{
    match d {
        Dialect::PostgreSql => '"',
        Dialect::MySql => '`',
        Dialect::SQLite => '`',
    }
}

/// Settings that a catalog model is built from.
#[derive(Debug, Clone, PartialEq, Eq)]
pub struct Options {
    pub dialect: Dialect,
    pub database: String,
    pub default_schema: String,
}

/// Settings as they are written by a user; some of them may be missing.
#[derive(Debug, Clone, PartialEq, Eq, Default)]
pub struct Config {
    pub dialect: Option<Dialect>,
    pub database: String,
    pub default_schema: Option<String>,
    pub paths: Vec<String>,
}

/// Which construct a `CREATE TABLE` statement used that the catalog model cannot hold.
#[derive(Debug, Copy, Clone, PartialEq, Eq, Structural)]
pub enum Construct {
    Temporary,
    External,
    Transient,
    TableProperties,
    StoredAs,
    Location,
    AsQuery,
    Clone,
    OnCluster,
    ClusterBy,
    Like,
}

/// Everything that can go wrong while building a catalog model or diffing two of them.
#[derive(Debug, Clone)]
pub enum Error {
    DialectRequired,
    DatabaseRequired,
    CatalogNotFound,
    SchemaNotFound,
    TableNotFound,
    InvalidName,
    UnsupportedConstruct(Construct),
    /// Columns were added in front of a retained column of the named table.
    UnsupportedDiff(migrate::ObjectName),
}

/// The schema used when the configuration names none.
pub open spec fn default_schema_name(c: Option<String>) -> Seq<char> {
    match c {
        Some(s) => s@,
        None => "public"@,
    }
}

impl Config {
    pub fn to_options(&self) -> (r: Result<Options, Error>)
        ensures
            self.dialect is None ==> r matches Err(Error::DialectRequired),
            self.dialect is Some && self.database@.len() == 0 ==> r matches Err(
                Error::DatabaseRequired,
            ),
            self.dialect is Some && self.database@.len() > 0 ==> (r matches Ok(o) && o.dialect
                == self.dialect.unwrap() && o.database@ == self.database@ && o.default_schema@
                == default_schema_name(self.default_schema)),
    {
        let dialect = match self.dialect {
            Some(d) => d,
            None => {
                return Err(Error::DialectRequired);
            },
        };
        if self.database.as_str().is_empty() {
            return Err(Error::DatabaseRequired);
        }
        let default_schema = match &self.default_schema {
            Some(s) => s.clone(),
            None => "public".to_owned(),
        };
        Ok(Options { dialect, database: self.database.clone(), default_schema })
    }
}

} // verus!
