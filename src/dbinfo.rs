use vstd::prelude::*;

use crate::{Dialect, Error, Options};

verus! {

/// One column of a table. The type, collation and options are kept as their SQL text.
#[derive(Debug)]
pub struct Column {
    pub name: String,
    pub data_type: String,
    pub collation: Option<String>,
    pub options: Vec<String>,
}

pub struct ColumnView {
    pub name: Seq<char>,
    pub data_type: Seq<char>,
    pub collation: Option<Seq<char>>,
    pub options: Seq<Seq<char>>,
}

impl View for Column {
    type V = ColumnView;

    open spec fn view(&self) -> ColumnView {
        ColumnView {
            name: self.name@,
            data_type: self.data_type@,
            collation: self.collation.deep_view(),
            options: self.options.deep_view(),
        }
    }
}

/// A table: its columns in physical order, its constraints, and the dialect-specific
/// attributes that take part in comparisons. Opaque SQL pieces are kept as their SQL text.
#[derive(Debug)]
pub struct Table {
    pub name: String,
    pub columns: Vec<Column>,
    pub constraints: Vec<String>,
    pub with_options: Vec<String>,
    pub without_rowid: bool,
    pub engine: Option<String>,
    pub comment: Option<String>,
    pub auto_increment_offset: Option<u32>,
    pub default_charset: Option<String>,
    pub collation: Option<String>,
    pub on_commit: Option<String>,
    pub order_by: Option<Vec<String>>,
    pub partition_by: Option<String>,
    pub options: Option<Vec<String>>,
    pub strict: bool,
}

pub struct TableView {
    pub name: Seq<char>,
    pub columns: Seq<ColumnView>,
    pub constraints: Seq<Seq<char>>,
    pub with_options: Seq<Seq<char>>,
    pub without_rowid: bool,
    pub engine: Option<Seq<char>>,
    pub comment: Option<Seq<char>>,
    pub auto_increment_offset: Option<u32>,
    pub default_charset: Option<Seq<char>>,
    pub collation: Option<Seq<char>>,
    pub on_commit: Option<Seq<char>>,
    pub order_by: Option<Seq<Seq<char>>>,
    pub partition_by: Option<Seq<char>>,
    pub options: Option<Seq<Seq<char>>>,
    pub strict: bool,
}

pub open spec fn column_views(cs: Seq<Column>) -> Seq<ColumnView> {
    cs.map_values(|c: Column| c@)
}

pub open spec fn table_views(ts: Seq<(String, Table)>) -> Seq<(Seq<char>, TableView)> {
    ts.map_values(|e: (String, Table)| (e.0@, e.1@))
}

pub open spec fn schema_views(ss: Seq<(String, Schema)>) -> Seq<(Seq<char>, SchemaView)> {
    ss.map_values(|e: (String, Schema)| (e.0@, e.1@))
}

pub open spec fn catalog_views(cs: Seq<(String, Catalog)>) -> Seq<(Seq<char>, CatalogView)> {
    cs.map_values(|e: (String, Catalog)| (e.0@, e.1@))
}

impl View for Table {
    type V = TableView;

    open spec fn view(&self) -> TableView {
        TableView {
            name: self.name@,
            columns: column_views(self.columns@),
            constraints: self.constraints.deep_view(),
            with_options: self.with_options.deep_view(),
            without_rowid: self.without_rowid,
            engine: self.engine.deep_view(),
            comment: self.comment.deep_view(),
            auto_increment_offset: self.auto_increment_offset,
            default_charset: self.default_charset.deep_view(),
            collation: self.collation.deep_view(),
            on_commit: self.on_commit.deep_view(),
            order_by: self.order_by.deep_view(),
            partition_by: self.partition_by.deep_view(),
            options: self.options.deep_view(),
            strict: self.strict,
        }
    }
}

fn strings_eq(a: &Vec<String>, b: &Vec<String>) -> (r: bool)
    ensures
        r == (a.deep_view() == b.deep_view()),
{
    if a.len() != b.len() {
        assert(a.deep_view().len() != b.deep_view().len());
        return false;
    }
    let mut i: usize = 0;
    while i < a.len()
        invariant
            a.len() == b.len(),
            i <= a.len(),
            forall|k: int| 0 <= k < i ==> a@[k]@ == b@[k]@,
        decreases a.len() - i,
    {
        if a[i] != b[i] {
            assert(a.deep_view()[i as int] != b.deep_view()[i as int]);
            return false;
        }
        i = i + 1;
    }
    assert(a.deep_view() =~= b.deep_view());
    true
}

fn opt_string_eq(a: &Option<String>, b: &Option<String>) -> (r: bool)
    ensures
        r == (a.deep_view() == b.deep_view()),
{
    match a {
        Some(x) => match b {
            Some(y) => {
                let r = *x == *y;
                assert(a.deep_view() == Some(x@) && b.deep_view() == Some(y@));
                r
            },
            None => false,
        },
        None => b.is_none(),
    }
}

fn opt_strings_eq(a: &Option<Vec<String>>, b: &Option<Vec<String>>) -> (r: bool)
    ensures
        r == (a.deep_view() == b.deep_view()),
{
    match a {
        Some(x) => match b {
            Some(y) => strings_eq(x, y),
            None => false,
        },
        None => b.is_none(),
    }
}

pub(crate) fn strings_clone(a: &Vec<String>) -> (r: Vec<String>)
    ensures
        r.deep_view() == a.deep_view(),
{
    let mut r: Vec<String> = Vec::new();
    let mut i: usize = 0;
    while i < a.len()
        invariant
            i <= a.len(),
            r@.len() == i,
            forall|k: int| 0 <= k < i ==> r@[k]@ == a@[k]@,
        decreases a.len() - i,
    {
        r.push(a[i].clone());
        i = i + 1;
    }
    assert(r.deep_view() =~= a.deep_view());
    r
}

fn opt_string_clone(a: &Option<String>) -> (r: Option<String>)
    ensures
        r.deep_view() == a.deep_view(),
{
    match a {
        Some(x) => Some(x.clone()),
        None => None,
    }
}

fn opt_strings_clone(a: &Option<Vec<String>>) -> (r: Option<Vec<String>>)
    ensures
        r.deep_view() == a.deep_view(),
{
    match a {
        Some(x) => Some(strings_clone(x)),
        None => None,
    }
}

impl Clone for Column {
    fn clone(&self) -> (r: Column)
        ensures
            r@ == self@,
    {
        Column {
            name: self.name.clone(),
            data_type: self.data_type.clone(),
            collation: opt_string_clone(&self.collation),
            options: strings_clone(&self.options),
        }
    }
}

impl PartialEq for Column {
    fn eq(&self, o: &Column) -> (r: bool) {
        self.name == o.name && self.data_type == o.data_type && opt_string_eq(
            &self.collation,
            &o.collation,
        ) && strings_eq(&self.options, &o.options)
    }
}

impl vstd::std_specs::cmp::PartialEqSpecImpl for Column {
    open spec fn obeys_eq_spec() -> bool {
        true
    }

    open spec fn eq_spec(&self, o: &Column) -> bool {
        self@ == o@
    }
}

fn columns_eq(a: &Vec<Column>, b: &Vec<Column>) -> (r: bool)
    ensures
        r == (column_views(a@) == column_views(b@)),
{
    if a.len() != b.len() {
        assert(column_views(a@).len() != column_views(b@).len());
        return false;
    }
    let mut i: usize = 0;
    while i < a.len()
        invariant
            a.len() == b.len(),
            i <= a.len(),
            forall|k: int| 0 <= k < i ==> a@[k]@ == b@[k]@,
        decreases a.len() - i,
    {
        if a[i] != b[i] {
            assert(column_views(a@)[i as int] != column_views(b@)[i as int]);
            return false;
        }
        i = i + 1;
    }
    assert(column_views(a@) =~= column_views(b@));
    true
}

fn columns_clone(a: &Vec<Column>) -> (r: Vec<Column>)
    ensures
        column_views(r@) == column_views(a@),
{
    let mut r: Vec<Column> = Vec::new();
    let mut i: usize = 0;
    while i < a.len()
        invariant
            i <= a.len(),
            r@.len() == i,
            forall|k: int| 0 <= k < i ==> r@[k]@ == a@[k]@,
        decreases a.len() - i,
    {
        r.push(a[i].clone());
        i = i + 1;
    }
    assert(column_views(r@) =~= column_views(a@));
    r
}

impl Clone for Table {
    fn clone(&self) -> (r: Table)
        ensures
            r@ == self@,
    {
        Table {
            name: self.name.clone(),
            columns: columns_clone(&self.columns),
            constraints: strings_clone(&self.constraints),
            with_options: strings_clone(&self.with_options),
            without_rowid: self.without_rowid,
            engine: opt_string_clone(&self.engine),
            comment: opt_string_clone(&self.comment),
            auto_increment_offset: self.auto_increment_offset,
            default_charset: opt_string_clone(&self.default_charset),
            collation: opt_string_clone(&self.collation),
            on_commit: opt_string_clone(&self.on_commit),
            order_by: opt_strings_clone(&self.order_by),
            partition_by: opt_string_clone(&self.partition_by),
            options: opt_strings_clone(&self.options),
            strict: self.strict,
        }
    }
}

impl PartialEq for Table {
    /// Structural equality: every field, the order of the columns included.
    fn eq(&self, o: &Table) -> (r: bool) {
        let same_offset = match (self.auto_increment_offset, o.auto_increment_offset) {
            (Some(x), Some(y)) => x == y,
            (None, None) => true,
            _ => false,
        };
        self.name == o.name && columns_eq(&self.columns, &o.columns) && strings_eq(
            &self.constraints,
            &o.constraints,
        ) && strings_eq(&self.with_options, &o.with_options) && self.without_rowid
            == o.without_rowid && opt_string_eq(&self.engine, &o.engine) && opt_string_eq(
            &self.comment,
            &o.comment,
        ) && same_offset && opt_string_eq(&self.default_charset, &o.default_charset)
            && opt_string_eq(&self.collation, &o.collation) && opt_string_eq(
            &self.on_commit,
            &o.on_commit,
        ) && opt_strings_eq(&self.order_by, &o.order_by) && opt_string_eq(
            &self.partition_by,
            &o.partition_by,
        ) && opt_strings_eq(&self.options, &o.options) && self.strict == o.strict
    }
}

impl vstd::std_specs::cmp::PartialEqSpecImpl for Table {
    open spec fn obeys_eq_spec() -> bool {
        true
    }

    open spec fn eq_spec(&self, o: &Table) -> bool {
        self@ == o@
    }
}

/// A namespace of tables inside a catalog, each filed under its own key.
#[derive(Debug)]
pub struct Schema {
    pub name: String,
    pub tables: Vec<(String, Table)>,
}

pub struct SchemaView {
    pub name: Seq<char>,
    pub tables: Seq<(Seq<char>, TableView)>,
}

impl View for Schema {
    type V = SchemaView;

    open spec fn view(&self) -> SchemaView {
        SchemaView { name: self.name@, tables: table_views(self.tables@) }
    }
}

/// A database: schemas filed under their keys, and the key of the schema used for
/// unqualified names.
#[derive(Debug)]
pub struct Catalog {
    pub name: String,
    pub default_schema: String,
    pub schemas: Vec<(String, Schema)>,
}

pub struct CatalogView {
    pub name: Seq<char>,
    pub default_schema: Seq<char>,
    pub schemas: Seq<(Seq<char>, SchemaView)>,
}

impl View for Catalog {
    type V = CatalogView;

    open spec fn view(&self) -> CatalogView {
        CatalogView {
            name: self.name@,
            default_schema: self.default_schema@,
            schemas: schema_views(self.schemas@),
        }
    }
}

/// The root of a catalog model: catalogs filed under their keys, and the key of the catalog
/// used for names that carry no catalog qualifier.
#[derive(Debug)]
pub struct Dbinfo {
    pub dialect: Dialect,
    pub default_catalog: String,
    pub catalogs: Vec<(String, Catalog)>,
}

pub struct DbinfoView {
    pub dialect: Dialect,
    pub default_catalog: Seq<char>,
    pub catalogs: Seq<(Seq<char>, CatalogView)>,
}

impl View for Dbinfo {
    type V = DbinfoView;

    open spec fn view(&self) -> DbinfoView {
        DbinfoView {
            dialect: self.dialect,
            default_catalog: self.default_catalog@,
            catalogs: catalog_views(self.catalogs@),
        }
    }
}

/// A possibly partially qualified table name.
#[derive(Debug)]
pub struct TableName {
    pub catalog: Option<String>,
    pub schema: Option<String>,
    pub table: String,
}

pub struct TableNameView {
    pub catalog: Option<Seq<char>>,
    pub schema: Option<Seq<char>>,
    pub table: Seq<char>,
}

impl View for TableName {
    type V = TableNameView;

    open spec fn view(&self) -> TableNameView {
        TableNameView {
            catalog: self.catalog.deep_view(),
            schema: self.schema.deep_view(),
            table: self.table@,
        }
    }
}

/// The index of the first entry called `n`, if there is one.
pub open spec fn position(names: Seq<Seq<char>>, n: Seq<char>) -> Option<int>
    decreases names.len(),
{
    if names.len() == 0 {
        None
    } else if names[0] == n {
        Some(0)
    } else {
        match position(names.drop_first(), n) {
            Some(i) => Some(i + 1),
            None => None,
        }
    }
}

pub proof fn lemma_position(names: Seq<Seq<char>>, n: Seq<char>)
    ensures
        match position(names, n) {
            Some(i) => 0 <= i < names.len() && names[i] == n && forall|k: int|
                0 <= k < i ==> names[k] != n,
            None => forall|k: int| 0 <= k < names.len() ==> names[k] != n,
        },
    decreases names.len(),
{
    if names.len() > 0 {
        lemma_position(names.drop_first(), n);
        if names[0] != n {
            assert forall|k: int| 1 <= k < names.len() implies names[k] == names.drop_first()[k
                - 1] by {}
        }
    }
}

/// An index chosen by a scan that stops at the first match is the first position.
pub proof fn lemma_position_is(names: Seq<Seq<char>>, n: Seq<char>, r: Option<usize>)
    requires
        match r {
            Some(i) => i < names.len() && names[i as int] == n && forall|k: int|
                0 <= k < i ==> names[k] != n,
            None => forall|k: int| 0 <= k < names.len() ==> names[k] != n,
        },
    ensures
        position(names, n) == match r {
            Some(i) => Some(i as int),
            None => None::<int>,
        },
{
    lemma_position(names, n);
}

pub open spec fn table_names(ts: Seq<(Seq<char>, TableView)>) -> Seq<Seq<char>> {
    ts.map_values(|e: (Seq<char>, TableView)| e.0)
}

pub open spec fn schema_names(ss: Seq<(Seq<char>, SchemaView)>) -> Seq<Seq<char>> {
    ss.map_values(|e: (Seq<char>, SchemaView)| e.0)
}

pub open spec fn catalog_names(cs: Seq<(Seq<char>, CatalogView)>) -> Seq<Seq<char>> {
    cs.map_values(|e: (Seq<char>, CatalogView)| e.0)
}

/// No name occurs twice.
pub open spec fn unique(names: Seq<Seq<char>>) -> bool {
    forall|i: int, j: int| 0 <= i < j < names.len() ==> names[i] != names[j]
}

impl SchemaView {
    pub open spec fn wf(self) -> bool {
        unique(table_names(self.tables))
    }
}

impl CatalogView {
    pub open spec fn wf(self) -> bool {
        &&& unique(schema_names(self.schemas))
        &&& forall|k: int| 0 <= k < self.schemas.len() ==> (#[trigger] self.schemas[k]).1.wf()
    }
}

impl DbinfoView {
    /// Keys are unique at every level.
    pub open spec fn wf(self) -> bool {
        &&& unique(catalog_names(self.catalogs))
        &&& forall|k: int| 0 <= k < self.catalogs.len() ==> (#[trigger] self.catalogs[k]).1.wf()
    }
}

pub proof fn lemma_position_of_own(names: Seq<Seq<char>>, i: int)
    requires
        unique(names),
        0 <= i < names.len(),
    ensures
        position(names, names[i]) == Some(i),
{
    lemma_position(names, names[i]);
    if let Some(j) = position(names, names[i]) {
        if j < i {
            assert(names[j] != names[i]);
        }
    }
}

/// Putting a name that is absent, or one already present in place, keeps names unique.
pub proof fn lemma_unique_after_put(names: Seq<Seq<char>>, n: Seq<char>)
    requires
        unique(names),
    ensures
        match position(names, n) {
            Some(i) => unique(names.update(i, n)),
            None => unique(names.push(n)),
        },
{
    lemma_position(names, n);
    if let Some(i) = position(names, n) {
        assert(names.update(i, n) =~= names);
    }
}

/// The table filed under `n` in `ts`, if there is one.
pub open spec fn lookup_table(ts: Seq<(Seq<char>, TableView)>, n: Seq<char>) -> Option<TableView> {
    match position(table_names(ts), n) {
        Some(i) => Some(ts[i].1),
        None => None,
    }
}

pub open spec fn lookup_schema(ss: Seq<(Seq<char>, SchemaView)>, n: Seq<char>) -> Option<
    SchemaView,
> {
    match position(schema_names(ss), n) {
        Some(i) => Some(ss[i].1),
        None => None,
    }
}

pub open spec fn lookup_catalog(cs: Seq<(Seq<char>, CatalogView)>, n: Seq<char>) -> Option<
    CatalogView,
> {
    match position(catalog_names(cs), n) {
        Some(i) => Some(cs[i].1),
        None => None,
    }
}

/// `ts` with `t` filed under `k`, in place of the entry under `k` or appended if none is.
pub open spec fn put_table(ts: Seq<(Seq<char>, TableView)>, k: Seq<char>, t: TableView) -> Seq<
    (Seq<char>, TableView),
> {
    match position(table_names(ts), k) {
        Some(i) => ts.update(i, (k, t)),
        None => ts.push((k, t)),
    }
}

pub open spec fn put_schema(ss: Seq<(Seq<char>, SchemaView)>, k: Seq<char>, s: SchemaView) -> Seq<
    (Seq<char>, SchemaView),
> {
    match position(schema_names(ss), k) {
        Some(i) => ss.update(i, (k, s)),
        None => ss.push((k, s)),
    }
}

pub open spec fn put_catalog(
    cs: Seq<(Seq<char>, CatalogView)>,
    k: Seq<char>,
    c: CatalogView,
) -> Seq<(Seq<char>, CatalogView)> {
    match position(catalog_names(cs), k) {
        Some(i) => cs.update(i, (k, c)),
        None => cs.push((k, c)),
    }
}

/// The key of the catalog that `n` lives in: the one it names, else the default catalog.
pub open spec fn catalog_key(db: DbinfoView, n: TableNameView) -> Seq<char> {
    match n.catalog {
        Some(c) => c,
        None => db.default_catalog,
    }
}

/// The key of the schema that `n` lives in within `c`: the one it names, else the default.
pub open spec fn schema_key(c: CatalogView, n: TableNameView) -> Seq<char> {
    match n.schema {
        Some(s) => s,
        None => c.default_schema,
    }
}

/// Where `n` points in `db`: the indices of its catalog and of its schema, or the
/// level that is missing.
pub open spec fn locate(db: DbinfoView, n: TableNameView) -> Result<(int, int), Error> {
    match position(catalog_names(db.catalogs), catalog_key(db, n)) {
        None => Err(Error::CatalogNotFound),
        Some(ci) => match position(
            schema_names(db.catalogs[ci].1.schemas),
            schema_key(db.catalogs[ci].1, n),
        ) {
            None => Err(Error::SchemaNotFound),
            Some(si) => Ok((ci, si)),
        },
    }
}

/// The table that `n` names in `db`, or the level that is missing.
pub open spec fn table_at(db: DbinfoView, n: TableNameView) -> Result<TableView, Error> {
    match locate(db, n) {
        Err(e) => Err(e),
        Ok((ci, si)) => match lookup_table(db.catalogs[ci].1.schemas[si].1.tables, n.table) {
            None => Err(Error::TableNotFound),
            Some(t) => Ok(t),
        },
    }
}

/// `db` with `t` filed under `k` in the schema at `(ci, si)`.
pub open spec fn with_table(db: DbinfoView, ci: int, si: int, k: Seq<char>, t: TableView) -> DbinfoView {
    let c = db.catalogs[ci].1;
    let s = c.schemas[si].1;
    DbinfoView {
        catalogs: db.catalogs.update(
            ci,
            (
                db.catalogs[ci].0,
                CatalogView {
                    schemas: c.schemas.update(
                        si,
                        (c.schemas[si].0, SchemaView { tables: put_table(s.tables, k, t), ..s }),
                    ),
                    ..c
                },
            ),
        ),
        ..db
    }
}

pub(crate) fn find_table(ts: &Vec<(String, Table)>, name: &String) -> (r: Option<usize>)
    ensures
        position(table_names(table_views(ts@)), name@) == match r {
            Some(i) => Some(i as int),
            None => None::<int>,
        },
        r matches Some(i) ==> i < ts.len(),
{
    let ghost names = table_names(table_views(ts@));
    let mut i: usize = 0;
    while i < ts.len()
        invariant
            i <= ts.len(),
            names == table_names(table_views(ts@)),
            names.len() == ts@.len(),
            forall|k: int| 0 <= k < ts@.len() ==> names[k] == ts@[k].0@,
            forall|k: int| 0 <= k < i ==> names[k] != name@,
        decreases ts.len() - i,
    {
        if ts[i].0 == *name {
            assert(names[i as int] == name@);
            proof {
                lemma_position_is(names, name@, Some(i));
            }
            return Some(i);
        }
        i = i + 1;
    }
    proof {
        lemma_position_is(names, name@, None);
    }
    None
}

pub(crate) fn find_schema(ss: &Vec<(String, Schema)>, name: &String) -> (r: Option<usize>)
    ensures
        position(schema_names(schema_views(ss@)), name@) == match r {
            Some(i) => Some(i as int),
            None => None::<int>,
        },
        r matches Some(i) ==> i < ss.len(),
{
    let ghost names = schema_names(schema_views(ss@));
    let mut i: usize = 0;
    while i < ss.len()
        invariant
            i <= ss.len(),
            names == schema_names(schema_views(ss@)),
            names.len() == ss@.len(),
            forall|k: int| 0 <= k < ss@.len() ==> names[k] == ss@[k].0@,
            forall|k: int| 0 <= k < i ==> names[k] != name@,
        decreases ss.len() - i,
    {
        if ss[i].0 == *name {
            assert(names[i as int] == name@);
            proof {
                lemma_position_is(names, name@, Some(i));
            }
            return Some(i);
        }
        i = i + 1;
    }
    proof {
        lemma_position_is(names, name@, None);
    }
    None
}

pub(crate) fn find_catalog(cs: &Vec<(String, Catalog)>, name: &String) -> (r: Option<usize>)
    ensures
        position(catalog_names(catalog_views(cs@)), name@) == match r {
            Some(i) => Some(i as int),
            None => None::<int>,
        },
        r matches Some(i) ==> i < cs.len(),
{
    let ghost names = catalog_names(catalog_views(cs@));
    let mut i: usize = 0;
    while i < cs.len()
        invariant
            i <= cs.len(),
            names == catalog_names(catalog_views(cs@)),
            names.len() == cs@.len(),
            forall|k: int| 0 <= k < cs@.len() ==> names[k] == cs@[k].0@,
            forall|k: int| 0 <= k < i ==> names[k] != name@,
        decreases cs.len() - i,
    {
        if cs[i].0 == *name {
            assert(names[i as int] == name@);
            proof {
                lemma_position_is(names, name@, Some(i));
            }
            return Some(i);
        }
        i = i + 1;
    }
    proof {
        lemma_position_is(names, name@, None);
    }
    None
}

impl Dbinfo {
    /// A model with one empty catalog, filed under the database name, holding one empty
    /// schema filed under the default schema name.
    pub fn with_options(options: Options) -> (r: Dbinfo)
        ensures
            r@ == (DbinfoView {
                dialect: options.dialect,
                default_catalog: options.database@,
                catalogs: seq![
                    (
                        options.database@,
                        CatalogView {
                            name: options.database@,
                            default_schema: options.default_schema@,
                            schemas: seq![
                                (
                                    options.default_schema@,
                                    SchemaView { name: options.default_schema@, tables: seq![] },
                                ),
                            ],
                        },
                    ),
                ],
            }),
            r@.wf(),
    {
        let schema = Schema { name: options.default_schema.clone(), tables: Vec::new() };
        let mut schemas: Vec<(String, Schema)> = Vec::new();
        schemas.push((options.default_schema.clone(), schema));
        let catalog = Catalog {
            name: options.database.clone(),
            default_schema: options.default_schema.clone(),
            schemas,
        };
        assert(table_views(catalog.schemas@[0].1.tables@) =~= seq![]);
        assert(catalog@.schemas =~= seq![
            (options.default_schema@, SchemaView { name: options.default_schema@, tables: seq![] }),
        ]);
        let mut catalogs: Vec<(String, Catalog)> = Vec::new();
        catalogs.push((options.database.clone(), catalog));
        let r = Dbinfo { dialect: options.dialect, default_catalog: options.database.clone(), catalogs };
        assert(r@.catalogs =~= seq![(options.database@, catalog@)]);
        assert(r@.catalogs[0].1.schemas[0].1.wf());
        r
    }

    /// Files `catalog` under `name`, in place of the catalog filed there if there is one.
    pub fn add_catalog(&mut self, name: &str, catalog: Catalog)
        ensures
            final(self)@ == (DbinfoView {
                catalogs: put_catalog(old(self)@.catalogs, name@, catalog@),
                ..old(self)@
            }),
            old(self)@.wf() && catalog@.wf() ==> final(self)@.wf(),
    {
        let key = name.to_owned();
        let ghost c = catalog@;
        let ghost names = catalog_names(old(self)@.catalogs);
        match find_catalog(&self.catalogs, &key) {
            Some(i) => {
                self.catalogs.remove(i);
                self.catalogs.insert(i, (key, catalog));
            },
            None => {
                self.catalogs.push((key, catalog));
            },
        }
        assert(self@.catalogs =~= put_catalog(old(self)@.catalogs, name@, c));
        proof {
            if old(self)@.wf() && c.wf() {
                lemma_unique_after_put(names, name@);
                match position(names, name@) {
                    Some(i) => assert(catalog_names(self@.catalogs) =~= names.update(i, name@)),
                    None => assert(catalog_names(self@.catalogs) =~= names.push(name@)),
                }
            }
        }
    }

    /// Files `table` under the simple name of `name` in the schema that `name` points to, in
    /// place of the table filed there if there is one. The catalog and the schema are the
    /// ones `name` gives, else the defaults; if either is missing nothing changes.
    pub fn add_table(&mut self, name: &TableName, table: Table) -> (r: Result<(), Error>)
        ensures
            match locate(old(self)@, name@) {
                Err(e) => r matches Err(x) && x == e && final(self)@ == old(self)@,
                Ok((ci, si)) => r is Ok && final(self)@ == with_table(
                    old(self)@,
                    ci,
                    si,
                    name@.table,
                    table@,
                ),
            },
            old(self)@.wf() ==> final(self)@.wf(),
    {
        let ci = match &name.catalog {
            Some(c) => find_catalog(&self.catalogs, c),
            None => find_catalog(&self.catalogs, &self.default_catalog),
        };
        let ci = match ci {
            Some(ci) => ci,
            None => {
                return Err(Error::CatalogNotFound);
            },
        };
        let si = match &name.schema {
            Some(s) => find_schema(&self.catalogs[ci].1.schemas, s),
            None => find_schema(&self.catalogs[ci].1.schemas, &self.catalogs[ci].1.default_schema),
        };
        let si = match si {
            Some(si) => si,
            None => {
                return Err(Error::SchemaNotFound);
            },
        };
        let ghost before = self@;
        let (catalog_key, mut catalog) = self.catalogs.remove(ci);
        let (schema_key, mut schema) = catalog.schemas.remove(si);
        let ghost old_schema = schema@;
        schema.add_table(name.table.as_str(), table);
        let ghost new_schema = schema@;
        catalog.schemas.insert(si, (schema_key, schema));
        let ghost new_catalog = catalog@;
        assert(new_catalog.schemas =~= before.catalogs[ci as int].1.schemas.update(
            si as int,
            (before.catalogs[ci as int].1.schemas[si as int].0, new_schema),
        ));
        self.catalogs.insert(ci, (catalog_key, catalog));
        assert(self@.catalogs =~= before.catalogs.update(
            ci as int,
            (before.catalogs[ci as int].0, new_catalog),
        ));
        proof {
            if before.wf() {
                let oc = before.catalogs[ci as int].1;
                assert(oc.wf());
                assert(old_schema == oc.schemas[si as int].1);
                assert(old_schema.wf());
                assert(schema_names(new_catalog.schemas) =~= schema_names(oc.schemas));
                assert forall|k: int| 0 <= k < new_catalog.schemas.len() implies (
                #[trigger] new_catalog.schemas[k]).1.wf() by {
                    if k != si {
                        assert(new_catalog.schemas[k] == oc.schemas[k]);
                    }
                }
                assert(new_catalog.wf());
                assert(catalog_names(self@.catalogs) =~= catalog_names(before.catalogs));
                assert forall|k: int| 0 <= k < self@.catalogs.len() implies (
                #[trigger] self@.catalogs[k]).1.wf() by {
                    if k != ci {
                        assert(self@.catalogs[k] == before.catalogs[k]);
                    }
                }
            }
        }
        Ok(())
    }

    pub fn get_catalog(&self, name: &str) -> (r: Result<&Catalog, Error>)
        ensures
            match lookup_catalog(self@.catalogs, name@) {
                Some(c) => r matches Ok(x) && x@ == c,
                None => r matches Err(Error::CatalogNotFound),
            },
    {
        let key = name.to_owned();
        match find_catalog(&self.catalogs, &key) {
            Some(i) => Ok(&self.catalogs[i].1),
            None => Err(Error::CatalogNotFound),
        }
    }

    pub fn get_catalog_mut(&mut self, name: &str) -> (r: Result<&mut Catalog, Error>)
        ensures
            match position(catalog_names(old(self)@.catalogs), name@) {
                Some(i) => r is Ok && *r->Ok_0 == old(self).catalogs@[i].1
                    && final(self).catalogs@ == old(self).catalogs@.update(
                    i,
                    (old(self).catalogs@[i].0, *final(r->Ok_0)),
                ),
                None => r matches Err(Error::CatalogNotFound) && final(self).catalogs@ == old(
                    self,
                ).catalogs@,
            },
            final(self).dialect == old(self).dialect,
            final(self).default_catalog == old(self).default_catalog,
    {
        let key = name.to_owned();
        match find_catalog(&self.catalogs, &key) {
            Some(i) => Ok(&mut self.catalogs[i].1),
            None => Err(Error::CatalogNotFound),
        }
    }

    /// The table that `name` points to; unqualified parts go to the defaults.
    pub fn get_table(&self, name: &TableName) -> (r: Result<&Table, Error>)
        ensures
            match table_at(self@, name@) {
                Ok(t) => r matches Ok(x) && x@ == t,
                Err(e) => r matches Err(x) && x == e,
            },
    {
        let ci = match &name.catalog {
            Some(c) => find_catalog(&self.catalogs, c),
            None => find_catalog(&self.catalogs, &self.default_catalog),
        };
        let catalog = match ci {
            Some(ci) => &self.catalogs[ci].1,
            None => {
                return Err(Error::CatalogNotFound);
            },
        };
        let si = match &name.schema {
            Some(s) => find_schema(&catalog.schemas, s),
            None => find_schema(&catalog.schemas, &catalog.default_schema),
        };
        let schema = match si {
            Some(si) => &catalog.schemas[si].1,
            None => {
                return Err(Error::SchemaNotFound);
            },
        };
        match find_table(&schema.tables, &name.table) {
            Some(i) => Ok(&schema.tables[i].1),
            None => Err(Error::TableNotFound),
        }
    }
}

impl Catalog {
    pub fn get_schema_mut(&mut self, name: &str) -> (r: Result<&mut Schema, Error>)
        ensures
            match position(schema_names(old(self)@.schemas), name@) {
                Some(i) => r is Ok && *r->Ok_0 == old(self).schemas@[i].1 && final(self).schemas@
                    == old(self).schemas@.update(i, (old(self).schemas@[i].0, *final(r->Ok_0))),
                None => r matches Err(Error::SchemaNotFound) && final(self).schemas@ == old(
                    self,
                ).schemas@,
            },
            final(self).name == old(self).name,
            final(self).default_schema == old(self).default_schema,
    {
        let key = name.to_owned();
        match find_schema(&self.schemas, &key) {
            Some(i) => Ok(&mut self.schemas[i].1),
            None => Err(Error::SchemaNotFound),
        }
    }

    /// Files `schema` under `name`, in place of the schema filed there if there is one.
    pub fn add_schema(&mut self, name: &str, schema: Schema)
        ensures
            final(self)@ == (CatalogView {
                schemas: put_schema(old(self)@.schemas, name@, schema@),
                ..old(self)@
            }),
            old(self)@.wf() && schema@.wf() ==> final(self)@.wf(),
    {
        let key = name.to_owned();
        let ghost x = schema@;
        let ghost names = schema_names(old(self)@.schemas);
        match find_schema(&self.schemas, &key) {
            Some(i) => {
                self.schemas.remove(i);
                self.schemas.insert(i, (key, schema));
            },
            None => {
                self.schemas.push((key, schema));
            },
        }
        assert(self@.schemas =~= put_schema(old(self)@.schemas, name@, x));
        proof {
            if old(self)@.wf() && x.wf() {
                lemma_unique_after_put(names, name@);
                match position(names, name@) {
                    Some(i) => assert(schema_names(self@.schemas) =~= names.update(i, name@)),
                    None => assert(schema_names(self@.schemas) =~= names.push(name@)),
                }
            }
        }
    }

    pub fn get_schema(&self, name: &str) -> (r: Result<&Schema, Error>)
        ensures
            match lookup_schema(self@.schemas, name@) {
                Some(s) => r matches Ok(x) && x@ == s,
                None => r matches Err(Error::SchemaNotFound),
            },
    {
        let key = name.to_owned();
        match find_schema(&self.schemas, &key) {
            Some(i) => Ok(&self.schemas[i].1),
            None => Err(Error::SchemaNotFound),
        }
    }
}

impl Schema {
    pub fn get_table_mut(&mut self, name: &str) -> (r: Result<&mut Table, Error>)
        ensures
            match position(table_names(old(self)@.tables), name@) {
                Some(i) => r is Ok && *r->Ok_0 == old(self).tables@[i].1 && final(self).tables@
                    == old(self).tables@.update(i, (old(self).tables@[i].0, *final(r->Ok_0))),
                None => r matches Err(Error::TableNotFound) && final(self).tables@ == old(
                    self,
                ).tables@,
            },
            final(self).name == old(self).name,
    {
        let key = name.to_owned();
        match find_table(&self.tables, &key) {
            Some(i) => Ok(&mut self.tables[i].1),
            None => Err(Error::TableNotFound),
        }
    }

    /// Files `table` under `name`, in place of the table filed there if there is one.
    pub fn add_table(&mut self, name: &str, table: Table)
        ensures
            final(self)@ == (SchemaView {
                tables: put_table(old(self)@.tables, name@, table@),
                ..old(self)@
            }),
            old(self)@.wf() ==> final(self)@.wf(),
    {
        let key = name.to_owned();
        let ghost x = table@;
        let ghost names = table_names(old(self)@.tables);
        match find_table(&self.tables, &key) {
            Some(i) => {
                self.tables.remove(i);
                self.tables.insert(i, (key, table));
            },
            None => {
                self.tables.push((key, table));
            },
        }
        assert(self@.tables =~= put_table(old(self)@.tables, name@, x));
        proof {
            if old(self)@.wf() {
                lemma_unique_after_put(names, name@);
                match position(names, name@) {
                    Some(i) => assert(table_names(self@.tables) =~= names.update(i, name@)),
                    None => assert(table_names(self@.tables) =~= names.push(name@)),
                }
            }
        }
    }

    pub fn get_table(&self, name: &str) -> (r: Result<&Table, Error>)
        ensures
            match lookup_table(self@.tables, name@) {
                Some(t) => r matches Ok(x) && x@ == t,
                None => r matches Err(Error::TableNotFound),
            },
    {
        let key = name.to_owned();
        match find_table(&self.tables, &key) {
            Some(i) => Ok(&self.tables[i].1),
            None => Err(Error::TableNotFound),
        }
    }
}

} // verus!
