use vstd::prelude::*;

use crate::dbinfo::{
    catalog_names, lemma_position_of_own, schema_names, table_names, column_views, find_catalog, find_schema, find_table, lookup_catalog, lookup_schema,
    lookup_table, strings_clone, table_views, Catalog, CatalogView, Column, ColumnView, Dbinfo,
    DbinfoView, Schema, SchemaView, Table, TableView, unique,
};
use crate::Error;

verus! {

/// A qualified name, one part per level.
#[derive(Debug, Clone)]
pub struct ObjectName(pub Vec<String>);

impl View for ObjectName {
    type V = Seq<Seq<char>>;

    open spec fn view(&self) -> Seq<Seq<char>> {
        self.0.deep_view()
    }
}

/// A change to one table's columns or indexes.
#[derive(Debug)]
pub enum AlterTableOperation {
    AddColumn { table: ObjectName, column: Column },
    DropColumn { table: ObjectName, column: Column },
    AlterColumn { table: ObjectName, previous: Column, current: Column },
    AddIndex,
    DropIndex,
}

/// One step of a migration.
#[derive(Debug)]
pub enum MigrationOperation {
    CreateDatabase { name: String },
    DropDatabase { name: String },
    CreateSchema { name: ObjectName },
    DropSchema { name: ObjectName },
    CreateTable { name: ObjectName, table: Table },
    DropTable { name: ObjectName, table: Table },
    AlterTable(AlterTableOperation),
}

/// The steps of a migration, in the order they are to be applied.
#[derive(Debug)]
pub struct Migration {
    pub operations: Vec<MigrationOperation>,
}

pub enum OperationView {
    CreateDatabase(Seq<char>),
    DropDatabase(Seq<char>),
    CreateSchema(Seq<Seq<char>>),
    DropSchema(Seq<Seq<char>>),
    CreateTable(Seq<Seq<char>>, TableView),
    DropTable(Seq<Seq<char>>, TableView),
    AddColumn(Seq<Seq<char>>, ColumnView),
    DropColumn(Seq<Seq<char>>, ColumnView),
    AlterColumn(Seq<Seq<char>>, ColumnView, ColumnView),
    AddIndex,
    DropIndex,
}

impl View for MigrationOperation {
    type V = OperationView;

    open spec fn view(&self) -> OperationView {
        match self {
            MigrationOperation::CreateDatabase { name } => OperationView::CreateDatabase(name@),
            MigrationOperation::DropDatabase { name } => OperationView::DropDatabase(name@),
            MigrationOperation::CreateSchema { name } => OperationView::CreateSchema(name@),
            MigrationOperation::DropSchema { name } => OperationView::DropSchema(name@),
            MigrationOperation::CreateTable { name, table } => OperationView::CreateTable(
                name@,
                table@,
            ),
            MigrationOperation::DropTable { name, table } => OperationView::DropTable(
                name@,
                table@,
            ),
            MigrationOperation::AlterTable(a) => match a {
                AlterTableOperation::AddColumn { table, column } => OperationView::AddColumn(
                    table@,
                    column@,
                ),
                AlterTableOperation::DropColumn { table, column } => OperationView::DropColumn(
                    table@,
                    column@,
                ),
                AlterTableOperation::AlterColumn { table, previous, current } =>
                    OperationView::AlterColumn(table@, previous@, current@),
                AlterTableOperation::AddIndex => OperationView::AddIndex,
                AlterTableOperation::DropIndex => OperationView::DropIndex,
            },
        }
    }
}

pub open spec fn operation_views(ops: Seq<MigrationOperation>) -> Seq<OperationView> {
    ops.map_values(|o: MigrationOperation| o@)
}

impl View for Migration {
    type V = Seq<OperationView>;

    open spec fn view(&self) -> Seq<OperationView> {
        operation_views(self.operations@)
    }
}

/// One position of an alignment of two sequences of column names.
#[derive(Debug, Copy, Clone, PartialEq, Eq, Structural)]
pub enum Edit {
    /// The next name of the previous sequence is gone.
    Removed,
    /// The next names of both sequences are the same column.
    Kept,
    /// The next name of the current sequence is new.
    Added,
}

/// How many names of the previous sequence the edits consume.
pub open spec fn left_count(e: Seq<Edit>) -> nat
    decreases e.len(),
{
    if e.len() == 0 {
        0
    } else {
        left_count(e.drop_last()) + if e.last() == Edit::Added {
            0nat
        } else {
            1nat
        }
    }
}

/// How many names of the current sequence the edits consume.
pub open spec fn right_count(e: Seq<Edit>) -> nat
    decreases e.len(),
{
    if e.len() == 0 {
        0
    } else {
        right_count(e.drop_last()) + if e.last() == Edit::Removed {
            0nat
        } else {
            1nat
        }
    }
}

pub open spec fn kept_count(e: Seq<Edit>) -> nat
    decreases e.len(),
{
    if e.len() == 0 {
        0
    } else {
        kept_count(e.drop_last()) + if e.last() == Edit::Kept {
            1nat
        } else {
            0nat
        }
    }
}

/// `e` walks through `a` and `b` in order, and pairs only equal names.
pub open spec fn is_alignment(e: Seq<Edit>, a: Seq<Seq<char>>, b: Seq<Seq<char>>) -> bool {
    &&& left_count(e) == a.len()
    &&& right_count(e) == b.len()
    &&& forall|k: int|
        0 <= k < e.len() && e[k] == Edit::Kept ==> a[left_count(e.take(k)) as int] == b[right_count(
            e.take(k),
        ) as int]
}

/// The alignment that the `diff` crate computes for two sequences.
pub uninterp spec fn lcs_alignment(a: Seq<Seq<char>>, b: Seq<Seq<char>>) -> Seq<Edit>;

/// Relies on `diff::slice`: a longest-common-subsequence alignment of the two slices, where
/// `Left`, `Both` and `Right` stand for a removed, a kept and an added element.
#[verifier::external_body]
fn align(previous: &Vec<String>, current: &Vec<String>) -> (r: Vec<Edit>)
    ensures
        r@ == lcs_alignment(previous.deep_view(), current.deep_view()),
        is_alignment(r@, previous.deep_view(), current.deep_view()),
        forall|o: Seq<Edit>|
            is_alignment(o, previous.deep_view(), current.deep_view()) ==> kept_count(o)
                <= kept_count(r@),
{
    diff::slice(previous.as_slice(), current.as_slice()).into_iter().map(
        |d| match d {
            diff::Result::Left(_) => Edit::Removed,
            diff::Result::Both(_, _) => Edit::Kept,
            diff::Result::Right(_) => Edit::Added,
        },
    ).collect()
}

pub proof fn lemma_counts_of_prefix(e: Seq<Edit>, k: int)
    requires
        0 <= k <= e.len(),
    ensures
        left_count(e.take(k)) <= left_count(e),
        right_count(e.take(k)) <= right_count(e),
    decreases e.len(),
{
    if k < e.len() {
        assert(e.drop_last().take(k) =~= e.take(k));
        lemma_counts_of_prefix(e.drop_last(), k);
    } else {
        assert(e.take(k) =~= e);
    }
}

pub open spec fn column_names(cs: Seq<ColumnView>) -> Seq<Seq<char>> {
    cs.map_values(|c: ColumnView| c.name)
}

/// No added column stands in front of a kept one.
pub open spec fn appends_only(e: Seq<Edit>) -> bool {
    forall|i: int, j: int| 0 <= i < j < e.len() && e[i] == Edit::Added ==> e[j] != Edit::Kept
}

/// The column operations of table `tn` that the edits `e` stand for, in their order.
pub open spec fn column_ops(
    tn: Seq<Seq<char>>,
    e: Seq<Edit>,
    p: Seq<ColumnView>,
    c: Seq<ColumnView>,
) -> Seq<OperationView>
    decreases e.len(),
{
    if e.len() == 0 {
        seq![]
    } else {
        let pre = e.drop_last();
        let i = left_count(pre) as int;
        let j = right_count(pre) as int;
        column_ops(tn, pre, p, c).push(
            match e.last() {
                Edit::Removed => OperationView::DropColumn(tn, p[i]),
                Edit::Kept => OperationView::AlterColumn(tn, p[i], c[j]),
                Edit::Added => OperationView::AddColumn(tn, c[j]),
            },
        )
    }
}

/// The operations that turn the columns of `p` into those of `c` along `e`, or the name
/// of the table if that needs a column in front of a kept one.
pub open spec fn aligned_ops(tn: Seq<Seq<char>>, e: Seq<Edit>, p: TableView, c: TableView) -> Result<
    Seq<OperationView>,
    Seq<Seq<char>>,
> {
    if appends_only(e) {
        Ok(column_ops(tn, e, p.columns, c.columns))
    } else {
        Err(tn)
    }
}

/// The operations for the table `tn`, present in both snapshots.
pub open spec fn table_ops(tn: Seq<Seq<char>>, p: TableView, c: TableView) -> Result<
    Seq<OperationView>,
    Seq<Seq<char>>,
> {
    if p == c {
        Ok(seq![])
    } else {
        aligned_ops(tn, lcs_alignment(column_names(p.columns), column_names(c.columns)), p, c)
    }
}

/// A drop of each table of `p` whose key `c` lacks.
pub open spec fn dropped_tables(
    sn: Seq<Seq<char>>,
    p: Seq<(Seq<char>, TableView)>,
    c: Seq<(Seq<char>, TableView)>,
) -> Seq<OperationView>
    decreases p.len(),
{
    if p.len() == 0 {
        seq![]
    } else {
        let t = p.last();
        let rest = dropped_tables(sn, p.drop_last(), c);
        if lookup_table(c, t.0) is None {
            rest.push(OperationView::DropTable(sn.push(t.0), t.1))
        } else {
            rest
        }
    }
}

/// A creation of each table of `c` whose key `p` lacks.
pub open spec fn created_tables(
    sn: Seq<Seq<char>>,
    c: Seq<(Seq<char>, TableView)>,
    p: Seq<(Seq<char>, TableView)>,
) -> Seq<OperationView>
    decreases c.len(),
{
    if c.len() == 0 {
        seq![]
    } else {
        let t = c.last();
        let rest = created_tables(sn, c.drop_last(), p);
        if lookup_table(p, t.0) is None {
            rest.push(OperationView::CreateTable(sn.push(t.0), t.1))
        } else {
            rest
        }
    }
}

/// A creation (or a drop) of every table of `ts`.
pub open spec fn whole_tables(sn: Seq<Seq<char>>, ts: Seq<(Seq<char>, TableView)>, create: bool) -> Seq<
    OperationView,
>
    decreases ts.len(),
{
    if ts.len() == 0 {
        seq![]
    } else {
        let t = ts.last();
        whole_tables(sn, ts.drop_last(), create).push(
            if create {
                OperationView::CreateTable(sn.push(t.0), t.1)
            } else {
                OperationView::DropTable(sn.push(t.0), t.1)
            },
        )
    }
}

/// The operations for the tables of `p` whose key `c` holds too, stopping at the first failure.
pub open spec fn common_tables(
    sn: Seq<Seq<char>>,
    p: Seq<(Seq<char>, TableView)>,
    c: Seq<(Seq<char>, TableView)>,
) -> Result<Seq<OperationView>, Seq<Seq<char>>>
    decreases p.len(),
{
    if p.len() == 0 {
        Ok(seq![])
    } else {
        match common_tables(sn, p.drop_last(), c) {
            Err(e) => Err(e),
            Ok(ops) => match lookup_table(c, p.last().0) {
                None => Ok(ops),
                Some(ct) => match table_ops(sn.push(p.last().0), p.last().1, ct) {
                    Err(e) => Err(e),
                    Ok(more) => Ok(ops + more),
                },
            },
        }
    }
}

/// The operations for the schema `sn`, present in both snapshots.
pub open spec fn schema_ops(
    sn: Seq<Seq<char>>,
    p: Seq<(Seq<char>, TableView)>,
    c: Seq<(Seq<char>, TableView)>,
) -> Result<Seq<OperationView>, Seq<Seq<char>>> {
    match common_tables(sn, p, c) {
        Err(e) => Err(e),
        Ok(m) => Ok(dropped_tables(sn, p, c) + created_tables(sn, c, p) + m),
    }
}

/// For each schema of `p` whose key `c` lacks: a drop of each of its tables, then of itself.
pub open spec fn dropped_schemas(
    cn: Seq<char>,
    p: Seq<(Seq<char>, SchemaView)>,
    c: Seq<(Seq<char>, SchemaView)>,
) -> Seq<OperationView>
    decreases p.len(),
{
    if p.len() == 0 {
        seq![]
    } else {
        let s = p.last();
        let rest = dropped_schemas(cn, p.drop_last(), c);
        if lookup_schema(c, s.0) is None {
            rest + whole_tables(seq![cn, s.0], s.1.tables, false).push(
                OperationView::DropSchema(seq![cn, s.0]),
            )
        } else {
            rest
        }
    }
}

/// For each schema of `c` whose key `p` lacks: a creation of itself, then of each of its tables.
pub open spec fn created_schemas(
    cn: Seq<char>,
    c: Seq<(Seq<char>, SchemaView)>,
    p: Seq<(Seq<char>, SchemaView)>,
) -> Seq<OperationView>
    decreases c.len(),
{
    if c.len() == 0 {
        seq![]
    } else {
        let s = c.last();
        let rest = created_schemas(cn, c.drop_last(), p);
        if lookup_schema(p, s.0) is None {
            rest + seq![OperationView::CreateSchema(seq![cn, s.0])] + whole_tables(
                seq![cn, s.0],
                s.1.tables,
                true,
            )
        } else {
            rest
        }
    }
}

pub open spec fn common_schemas(
    cn: Seq<char>,
    p: Seq<(Seq<char>, SchemaView)>,
    c: Seq<(Seq<char>, SchemaView)>,
) -> Result<Seq<OperationView>, Seq<Seq<char>>>
    decreases p.len(),
{
    if p.len() == 0 {
        Ok(seq![])
    } else {
        match common_schemas(cn, p.drop_last(), c) {
            Err(e) => Err(e),
            Ok(ops) => match lookup_schema(c, p.last().0) {
                None => Ok(ops),
                Some(cs) => match schema_ops(seq![cn, p.last().0], p.last().1.tables, cs.tables) {
                    Err(e) => Err(e),
                    Ok(more) => Ok(ops + more),
                },
            },
        }
    }
}

/// The operations for the catalog filed under `cn`, present in both snapshots.
pub open spec fn catalog_ops(cn: Seq<char>, p: CatalogView, c: CatalogView) -> Result<
    Seq<OperationView>,
    Seq<Seq<char>>,
> {
    match common_schemas(cn, p.schemas, c.schemas) {
        Err(e) => Err(e),
        Ok(m) => Ok(dropped_schemas(cn, p.schemas, c.schemas) + created_schemas(
            cn,
            c.schemas,
            p.schemas,
        ) + m),
    }
}

pub open spec fn dropped_catalogs(
    p: Seq<(Seq<char>, CatalogView)>,
    c: Seq<(Seq<char>, CatalogView)>,
) -> Seq<OperationView>
    decreases p.len(),
{
    if p.len() == 0 {
        seq![]
    } else {
        let rest = dropped_catalogs(p.drop_last(), c);
        if lookup_catalog(c, p.last().0) is None {
            rest.push(OperationView::DropDatabase(p.last().0))
        } else {
            rest
        }
    }
}

pub open spec fn created_catalogs(
    c: Seq<(Seq<char>, CatalogView)>,
    p: Seq<(Seq<char>, CatalogView)>,
) -> Seq<OperationView>
    decreases c.len(),
{
    if c.len() == 0 {
        seq![]
    } else {
        let rest = created_catalogs(c.drop_last(), p);
        if lookup_catalog(p, c.last().0) is None {
            rest.push(OperationView::CreateDatabase(c.last().0))
        } else {
            rest
        }
    }
}

pub open spec fn common_catalogs(
    p: Seq<(Seq<char>, CatalogView)>,
    c: Seq<(Seq<char>, CatalogView)>,
) -> Result<Seq<OperationView>, Seq<Seq<char>>>
    decreases p.len(),
{
    if p.len() == 0 {
        Ok(seq![])
    } else {
        match common_catalogs(p.drop_last(), c) {
            Err(e) => Err(e),
            Ok(ops) => match lookup_catalog(c, p.last().0) {
                None => Ok(ops),
                Some(cc) => match catalog_ops(p.last().0, p.last().1, cc) {
                    Err(e) => Err(e),
                    Ok(more) => Ok(ops + more),
                },
            },
        }
    }
}

/// The migration from `p` to `c`: the dropped databases, the created ones, then what changed
/// inside each database present in both; or the first table whose change cannot be written
/// as appended columns. Objects are named by the keys they are filed under.
pub open spec fn migration(p: DbinfoView, c: DbinfoView) -> Result<
    Seq<OperationView>,
    Seq<Seq<char>>,
> {
    match common_catalogs(p.catalogs, c.catalogs) {
        Err(e) => Err(e),
        Ok(m) => Ok(dropped_catalogs(p.catalogs, c.catalogs) + created_catalogs(
            c.catalogs,
            p.catalogs,
        ) + m),
    }
}

fn name_copy(n: &ObjectName) -> (r: ObjectName)
    ensures
        r@ == n@,
{
    ObjectName(strings_clone(&n.0))
}

fn name_child(n: &ObjectName, last: &String) -> (r: ObjectName)
    ensures
        r@ == n@.push(last@),
{
    let mut parts = strings_clone(&n.0);
    parts.push(last.clone());
    let r = ObjectName(parts);
    assert(r@ =~= n@.push(last@));
    r
}

fn name_pair(first: &String, second: &String) -> (r: ObjectName)
    ensures
        r@ == seq![first@, second@],
{
    let mut parts: Vec<String> = Vec::new();
    parts.push(first.clone());
    parts.push(second.clone());
    let r = ObjectName(parts);
    assert(r@ =~= seq![first@, second@]);
    r
}

fn names_of(cols: &Vec<Column>) -> (r: Vec<String>)
    ensures
        r.deep_view() == column_names(column_views(cols@)),
{
    let mut r: Vec<String> = Vec::new();
    let mut i: usize = 0;
    while i < cols.len()
        invariant
            i <= cols.len(),
            r@.len() == i,
            forall|k: int| 0 <= k < i ==> r@[k]@ == cols@[k].name@,
        decreases cols.len() - i,
    {
        r.push(cols[i].name.clone());
        i = i + 1;
    }
    assert(r.deep_view() =~= column_names(column_views(cols@)));
    r
}

/// Whether no added column stands in front of a kept one: the first added position must
/// come after the last kept one.
fn only_appends(e: &Vec<Edit>) -> (r: bool)
    ensures
        r == appends_only(e@),
{
    let mut first_added: Option<usize> = None;
    let mut last_kept: Option<usize> = None;
    let mut i: usize = 0;
    while i < e.len()
        invariant
            i <= e.len(),
            match first_added {
                Some(f) => f < i && e@[f as int] == Edit::Added && forall|k: int|
                    0 <= k < f ==> e@[k] != Edit::Added,
                None => forall|k: int| 0 <= k < i ==> e@[k] != Edit::Added,
            },
            match last_kept {
                Some(l) => l < i && e@[l as int] == Edit::Kept && forall|k: int|
                    l < k < i ==> e@[k] != Edit::Kept,
                None => forall|k: int| 0 <= k < i ==> e@[k] != Edit::Kept,
            },
        decreases e.len() - i,
    {
        match e[i] {
            Edit::Removed => {},
            Edit::Kept => {
                last_kept = Some(i);
            },
            Edit::Added => {
                if first_added.is_none() {
                    first_added = Some(i);
                }
            },
        }
        i = i + 1;
    }
    match (first_added, last_kept) {
        (Some(f), Some(l)) => {
            if f < l {
                assert(!appends_only(e@)) by {
                    assert(e@[f as int] == Edit::Added && e@[l as int] == Edit::Kept);
                }
                false
            } else {
                true
            }
        },
        _ => true,
    }
}

/// The column operations of the table `table_name` along `alignment`: a drop for each
/// removed column, an alteration for each kept one and an addition for each added one, in
/// the order of the alignment; or `UnsupportedDiff` if an added column stands in front of
/// a kept one.
pub fn alter_columns(
    table_name: &ObjectName,
    previous: &Table,
    current: &Table,
    alignment: &Vec<Edit>,
) -> (r: Result<Vec<MigrationOperation>, Error>)
    requires
        is_alignment(
            alignment@,
            column_names(previous@.columns),
            column_names(current@.columns),
        ),
    ensures
        match aligned_ops(table_name@, alignment@, previous@, current@) {
            Ok(ops) => r matches Ok(v) && operation_views(v@) == ops,
            Err(n) => r matches Err(Error::UnsupportedDiff(m)) && m@ == n,
        },
{
    if !only_appends(alignment) {
        return Err(Error::UnsupportedDiff(name_copy(table_name)));
    }
    let mut out: Vec<MigrationOperation> = Vec::new();
    let mut i: usize = 0;
    let mut j: usize = 0;
    let mut k: usize = 0;
    assert(alignment@.take(0) =~= seq![]);
    assert(operation_views(out@) =~= seq![]);
    while k < alignment.len()
        invariant
            is_alignment(
                alignment@,
                column_names(previous@.columns),
                column_names(current@.columns),
            ),
            k <= alignment.len(),
            i == left_count(alignment@.take(k as int)),
            j == right_count(alignment@.take(k as int)),
            operation_views(out@) == column_ops(
                table_name@,
                alignment@.take(k as int),
                previous@.columns,
                current@.columns,
            ),
        decreases alignment.len() - k,
    {
        proof {
            lemma_counts_of_prefix(alignment@, k + 1);
            assert(alignment@.take(k + 1).drop_last() =~= alignment@.take(k as int));
            assert(alignment@.take(k + 1).last() == alignment@[k as int]);
            assert(column_names(previous@.columns).len() == previous.columns@.len());
            assert(column_names(current@.columns).len() == current.columns@.len());
            assert(left_count(alignment@) == previous.columns.len());
            assert(right_count(alignment@) == current.columns.len());
            assert(left_count(alignment@.take(k + 1)) <= previous.columns.len());
            assert(right_count(alignment@.take(k + 1)) <= current.columns.len());
        }
        let ghost before = out@;
        proof {
            let t = alignment@.take(k + 1);
            assert(left_count(t) == left_count(t.drop_last()) + if t.last() == Edit::Added {
                0nat
            } else {
                1nat
            });
            assert(right_count(t) == right_count(t.drop_last()) + if t.last() == Edit::Removed {
                0nat
            } else {
                1nat
            });
        }
        match alignment[k] {
            Edit::Removed => {
                assert(alignment@[k as int] == Edit::Removed);
                assert(left_count(alignment@.take(k + 1)) == i + 1);
                out.push(
                    MigrationOperation::AlterTable(
                        AlterTableOperation::DropColumn {
                            table: name_copy(table_name),
                            column: previous.columns[i].clone(),
                        },
                    ),
                );
                i = i + 1;
            },
            Edit::Kept => {
                assert(alignment@[k as int] == Edit::Kept);
                assert(left_count(alignment@.take(k + 1)) == i + 1);
                assert(right_count(alignment@.take(k + 1)) == j + 1);
                out.push(
                    MigrationOperation::AlterTable(
                        AlterTableOperation::AlterColumn {
                            table: name_copy(table_name),
                            previous: previous.columns[i].clone(),
                            current: current.columns[j].clone(),
                        },
                    ),
                );
                i = i + 1;
                j = j + 1;
            },
            Edit::Added => {
                out.push(
                    MigrationOperation::AlterTable(
                        AlterTableOperation::AddColumn {
                            table: name_copy(table_name),
                            column: current.columns[j].clone(),
                        },
                    ),
                );
                j = j + 1;
            },
        }
        assert(operation_views(out@) =~= operation_views(before).push(out@.last()@));
        k = k + 1;
    }
    assert(alignment@.take(alignment@.len() as int) =~= alignment@);
    Ok(out)
}

/// The alignment of the column names of `previous` with those of `current`: it pairs only
/// equal names, walks through both lists in order, and keeps as many names as any such walk.
pub fn column_alignment(previous: &Table, current: &Table) -> (r: Vec<Edit>)
    ensures
        r@ == lcs_alignment(column_names(previous@.columns), column_names(current@.columns)),
        is_alignment(r@, column_names(previous@.columns), column_names(current@.columns)),
        forall|o: Seq<Edit>|
            is_alignment(o, column_names(previous@.columns), column_names(current@.columns))
                ==> kept_count(o) <= kept_count(r@),
{
    let previous_names = names_of(&previous.columns);
    let current_names = names_of(&current.columns);
    align(&previous_names, &current_names)
}

proof fn lemma_kept_columns_prefix(
    tn: Seq<Seq<char>>,
    e: Seq<Edit>,
    p: Seq<ColumnView>,
    c: Seq<ColumnView>,
    k: int,
)
    requires
        is_alignment(e, column_names(p), column_names(c)),
        0 <= k <= e.len(),
    ensures
        forall|i: int|
            0 <= i < column_ops(tn, e.take(k), p, c).len() && (#[trigger] column_ops(
                tn,
                e.take(k),
                p,
                c,
            )[i]) is AlterColumn ==> column_ops(tn, e.take(k), p, c)[i]->AlterColumn_1.name
                == column_ops(tn, e.take(k), p, c)[i]->AlterColumn_2.name,
    decreases k,
{
    if k > 0 {
        lemma_kept_columns_prefix(tn, e, p, c, k - 1);
        let t = e.take(k);
        assert(t.drop_last() =~= e.take(k - 1));
        assert(t.last() == e[k - 1]);
        lemma_counts_of_prefix(e, k);
        let l = left_count(e.take(k - 1)) as int;
        let r = right_count(e.take(k - 1)) as int;
        if e[k - 1] == Edit::Kept {
            assert(column_names(p)[l] == column_names(c)[r]);
        }
        let all = column_ops(tn, t, p, c);
        let rest = column_ops(tn, e.take(k - 1), p, c);
        assert forall|i: int| 0 <= i < all.len() && (#[trigger] all[i]) is AlterColumn implies all[
            i
        ]->AlterColumn_1.name == all[i]->AlterColumn_2.name by {
            if i < rest.len() {
                assert(all[i] == rest[i]);
            }
        }
    } else {
        assert(e.take(0) =~= seq![]);
    }
}

/// Columns are matched by name alone: along an alignment, every alteration pairs a previous
/// column with a current column of the same name.
pub proof fn law_altered_columns_share_names(
    tn: Seq<Seq<char>>,
    e: Seq<Edit>,
    p: Seq<ColumnView>,
    c: Seq<ColumnView>,
)
    requires
        is_alignment(e, column_names(p), column_names(c)),
    ensures
        forall|i: int|
            0 <= i < column_ops(tn, e, p, c).len() && (#[trigger] column_ops(tn, e, p, c)[i])
                is AlterColumn ==> column_ops(tn, e, p, c)[i]->AlterColumn_1.name == column_ops(
                tn,
                e,
                p,
                c,
            )[i]->AlterColumn_2.name,
{
    lemma_kept_columns_prefix(tn, e, p, c, e.len() as int);
    assert(e.take(e.len() as int) =~= e);
}

proof fn lemma_whole_tables_created(sn: Seq<Seq<char>>, ts: Seq<(Seq<char>, TableView)>)
    ensures
        whole_tables(sn, ts, true).len() == ts.len(),
        forall|t: int|
            0 <= t < ts.len() ==> #[trigger] whole_tables(sn, ts, true)[t]
                == OperationView::CreateTable(sn.push(ts[t].0), ts[t].1),
    decreases ts.len(),
{
    if ts.len() > 0 {
        lemma_whole_tables_created(sn, ts.drop_last());
        assert forall|t: int| 0 <= t < ts.len() implies #[trigger] whole_tables(sn, ts, true)[t]
            == OperationView::CreateTable(sn.push(ts[t].0), ts[t].1) by {
            if t < ts.len() - 1 {
                assert(ts.drop_last()[t] == ts[t]);
                assert(whole_tables(sn, ts, true)[t] == whole_tables(sn, ts.drop_last(), true)[t]);
            }
        }
    }
}

/// Where the block of a created schema stands among the creations of `c`.
proof fn lemma_created_schema_block(
    cn: Seq<char>,
    c: Seq<(Seq<char>, SchemaView)>,
    p: Seq<(Seq<char>, SchemaView)>,
    j: int,
) -> (off: int)
    requires
        0 <= j < c.len(),
        lookup_schema(p, c[j].0) is None,
    ensures
        0 <= off,
        off + 1 + c[j].1.tables.len() <= created_schemas(cn, c, p).len(),
        created_schemas(cn, c, p)[off] == OperationView::CreateSchema(seq![cn, c[j].0]),
        forall|t: int|
            0 <= t < c[j].1.tables.len() ==> #[trigger] created_schemas(cn, c, p)[off + 1 + t]
                == OperationView::CreateTable(
                seq![cn, c[j].0].push(c[j].1.tables[t].0),
                c[j].1.tables[t].1,
            ),
    decreases c.len(),
{
    let rest = created_schemas(cn, c.drop_last(), p);
    let all = created_schemas(cn, c, p);
    if j == c.len() - 1 {
        let sn = seq![cn, c[j].0];
        let wc = whole_tables(sn, c[j].1.tables, true);
        lemma_whole_tables_created(sn, c[j].1.tables);
        assert(all == rest + seq![OperationView::CreateSchema(sn)] + wc);
        assert forall|t: int| 0 <= t < c[j].1.tables.len() implies #[trigger] all[rest.len() + 1
            + t] == OperationView::CreateTable(
            sn.push(c[j].1.tables[t].0),
            c[j].1.tables[t].1,
        ) by {
            assert(all[rest.len() + 1 + t] == wc[t]);
        }
        rest.len() as int
    } else {
        assert(c.drop_last()[j] == c[j]);
        let off = lemma_created_schema_block(cn, c.drop_last(), p, j);
        assert forall|k: int| 0 <= k < rest.len() implies #[trigger] all[k] == rest[k] by {}
        assert forall|t: int| 0 <= t < c[j].1.tables.len() implies #[trigger] all[off + 1 + t]
            == OperationView::CreateTable(
            seq![cn, c[j].0].push(c[j].1.tables[t].0),
            c[j].1.tables[t].1,
        ) by {
            assert(all[off + 1 + t] == rest[off + 1 + t]);
        }
        off
    }
}

/// In a database present in both snapshots, a schema that only the current snapshot has is
/// created before each of its tables.
pub proof fn law_new_schema_precedes_its_tables(
    cn: Seq<char>,
    previous: CatalogView,
    current: CatalogView,
    j: int,
    t: int,
)
    requires
        0 <= j < current.schemas.len(),
        lookup_schema(previous.schemas, current.schemas[j].0) is None,
        0 <= t < current.schemas[j].1.tables.len(),
        catalog_ops(cn, previous, current) is Ok,
    ensures
        exists|i1: int, i2: int|
            0 <= i1 < i2 < catalog_ops(cn, previous, current)->Ok_0.len() && catalog_ops(
                cn,
                previous,
                current,
            )->Ok_0[i1] == OperationView::CreateSchema(seq![cn, current.schemas[j].0])
                && catalog_ops(cn, previous, current)->Ok_0[i2] == OperationView::CreateTable(
                seq![cn, current.schemas[j].0].push(current.schemas[j].1.tables[t].0),
                current.schemas[j].1.tables[t].1,
            ),
{
    let d = dropped_schemas(cn, previous.schemas, current.schemas);
    let cr = created_schemas(cn, current.schemas, previous.schemas);
    let m = common_schemas(cn, previous.schemas, current.schemas)->Ok_0;
    let x = catalog_ops(cn, previous, current)->Ok_0;
    assert(x == d + cr + m);
    let off = lemma_created_schema_block(cn, current.schemas, previous.schemas, j);
    let i1 = d.len() + off;
    let i2 = d.len() + off + 1 + t;
    assert(x[i1] == cr[off]);
    assert(x[i2] == cr[off + 1 + t]);
}

/// Appends the operations for the table `table_name`, present in both snapshots; on failure
/// nothing is appended.
fn gen_table(
    ops: &mut Vec<MigrationOperation>,
    table_name: &ObjectName,
    previous: &Table,
    current: &Table,
) -> (r: Result<(), Error>)
    ensures
        match table_ops(table_name@, previous@, current@) {
            Ok(x) => r is Ok && operation_views(final(ops)@) == operation_views(old(ops)@) + x,
            Err(n) => r matches Err(Error::UnsupportedDiff(m)) && m@ == n,
        },
        r is Err ==> final(ops)@ == old(ops)@,
{
    if previous.eq(current) {
        assert(operation_views(ops@) =~= operation_views(ops@) + seq![]);
        return Ok(());
    }
    let alignment = column_alignment(previous, current);
    match alter_columns(table_name, previous, current, &alignment) {
        Ok(mut more) => {
            let ghost before = ops@;
            let ghost added = more@;
            ops.append(&mut more);
            assert(operation_views(ops@) =~= operation_views(before) + operation_views(added));
            Ok(())
        },
        Err(e) => Err(e),
    }
}

proof fn lemma_common_tables_stops(
    sn: Seq<Seq<char>>,
    p: Seq<(Seq<char>, TableView)>,
    c: Seq<(Seq<char>, TableView)>,
    k: int,
)
    requires
        0 <= k <= p.len(),
        common_tables(sn, p.take(k), c) is Err,
    ensures
        common_tables(sn, p, c) == common_tables(sn, p.take(k), c),
    decreases p.len(),
{
    if k < p.len() {
        assert(p.drop_last().take(k) =~= p.take(k));
        lemma_common_tables_stops(sn, p.drop_last(), c, k);
    } else {
        assert(p.take(k) =~= p);
    }
}

proof fn lemma_common_schemas_stops(
    cn: Seq<char>,
    p: Seq<(Seq<char>, SchemaView)>,
    c: Seq<(Seq<char>, SchemaView)>,
    k: int,
)
    requires
        0 <= k <= p.len(),
        common_schemas(cn, p.take(k), c) is Err,
    ensures
        common_schemas(cn, p, c) == common_schemas(cn, p.take(k), c),
    decreases p.len(),
{
    if k < p.len() {
        assert(p.drop_last().take(k) =~= p.take(k));
        lemma_common_schemas_stops(cn, p.drop_last(), c, k);
    } else {
        assert(p.take(k) =~= p);
    }
}

proof fn lemma_common_catalogs_stops(
    p: Seq<(Seq<char>, CatalogView)>,
    c: Seq<(Seq<char>, CatalogView)>,
    k: int,
)
    requires
        0 <= k <= p.len(),
        common_catalogs(p.take(k), c) is Err,
    ensures
        common_catalogs(p, c) == common_catalogs(p.take(k), c),
    decreases p.len(),
{
    if k < p.len() {
        assert(p.drop_last().take(k) =~= p.take(k));
        lemma_common_catalogs_stops(p.drop_last(), c, k);
    } else {
        assert(p.take(k) =~= p);
    }
}

/// Appends the operations for a schema present in both snapshots.
fn gen_tables(
    ops: &mut Vec<MigrationOperation>,
    catalog_name: &String,
    schema_key: &String,
    previous: &Schema,
    current: &Schema,
) -> (r: Result<(), Error>)
    ensures
        match schema_ops(seq![catalog_name@, schema_key@], previous@.tables, current@.tables) {
            Ok(x) => r is Ok && operation_views(final(ops)@) == operation_views(old(ops)@) + x,
            Err(n) => r matches Err(Error::UnsupportedDiff(m)) && m@ == n,
        },
{
    let schema_name = name_pair(catalog_name, schema_key);
    let ghost sn = schema_name@;
    let ghost p = previous@.tables;
    let ghost c = current@.tables;
    let ghost start = operation_views(ops@);
    let mut i: usize = 0;
    assert(p.take(0) =~= seq![]);
    assert(start =~= start + seq![]);
    while i < previous.tables.len()
        invariant
            sn == schema_name@,
            sn == seq![catalog_name@, schema_key@],
            p == previous@.tables,
            c == current@.tables,
            i <= previous.tables.len(),
            operation_views(ops@) == start + dropped_tables(sn, p.take(i as int), c),
        decreases previous.tables.len() - i,
    {
        assert(p.take(i + 1).drop_last() =~= p.take(i as int));
        assert(p.take(i + 1).last() == p[i as int]);
        let ghost before = ops@;
        if find_table(&current.tables, &previous.tables[i].0).is_none() {
            ops.push(
                MigrationOperation::DropTable {
                    name: name_child(&schema_name, &previous.tables[i].0),
                    table: previous.tables[i].1.clone(),
                },
            );
            assert(operation_views(ops@) =~= operation_views(before).push(ops@.last()@));
        }
        i = i + 1;
    }
    assert(p.take(p.len() as int) =~= p);
    let ghost after_dropped = operation_views(ops@);
    let mut i: usize = 0;
    assert(c.take(0) =~= seq![]);
    assert(after_dropped =~= after_dropped + seq![]);
    while i < current.tables.len()
        invariant
            sn == schema_name@,
            sn == seq![catalog_name@, schema_key@],
            p == previous@.tables,
            c == current@.tables,
            i <= current.tables.len(),
            operation_views(ops@) == after_dropped + created_tables(sn, c.take(i as int), p),
        decreases current.tables.len() - i,
    {
        assert(c.take(i + 1).drop_last() =~= c.take(i as int));
        assert(c.take(i + 1).last() == c[i as int]);
        let ghost before = ops@;
        if find_table(&previous.tables, &current.tables[i].0).is_none() {
            ops.push(
                MigrationOperation::CreateTable {
                    name: name_child(&schema_name, &current.tables[i].0),
                    table: current.tables[i].1.clone(),
                },
            );
            assert(operation_views(ops@) =~= operation_views(before).push(ops@.last()@));
        }
        i = i + 1;
    }
    assert(c.take(c.len() as int) =~= c);
    let ghost after_created = operation_views(ops@);
    let mut i: usize = 0;
    assert(after_created =~= after_created + seq![]);
    while i < previous.tables.len()
        invariant
            sn == schema_name@,
            sn == seq![catalog_name@, schema_key@],
            p == previous@.tables,
            c == current@.tables,
            i <= previous.tables.len(),
            common_tables(sn, p.take(i as int), c) matches Ok(m) && operation_views(ops@)
                == after_created + m,
        decreases previous.tables.len() - i,
    {
        assert(p.take(i + 1).drop_last() =~= p.take(i as int));
        assert(p.take(i + 1).last() == p[i as int]);
        let ghost before = operation_views(ops@);
        match find_table(&current.tables, &previous.tables[i].0) {
            None => {},
            Some(k) => {
                assert(lookup_table(c, p[i as int].0) == Some(current.tables@[k as int].1@));
                let table_name = name_child(&schema_name, &previous.tables[i].0);
                match gen_table(ops, &table_name, &previous.tables[i].1, &current.tables[k].1) {
                    Ok(()) => {
                        assert(operation_views(ops@) =~= after_created + common_tables(
                            sn,
                            p.take(i + 1),
                            c,
                        )->Ok_0) by {
                            assert(before =~= after_created + common_tables(
                                sn,
                                p.take(i as int),
                                c,
                            )->Ok_0);
                        }
                    },
                    Err(e) => {
                        proof {
                            lemma_common_tables_stops(sn, p, c, i + 1);
                        }
                        return Err(e);
                    },
                }
            },
        }
        i = i + 1;
    }
    assert(p.take(p.len() as int) =~= p);
    Ok(())
}

/// Appends a creation (or a drop) of every table of `tables`, in their order.
fn push_whole_tables(
    ops: &mut Vec<MigrationOperation>,
    schema_name: &ObjectName,
    tables: &Vec<(String, Table)>,
    create: bool,
)
    ensures
        operation_views(final(ops)@) == operation_views(old(ops)@) + whole_tables(
            schema_name@,
            table_views(tables@),
            create,
        ),
{
    let ghost ts = table_views(tables@);
    let ghost start = operation_views(ops@);
    let mut i: usize = 0;
    assert(ts.take(0) =~= seq![]);
    assert(start =~= start + seq![]);
    while i < tables.len()
        invariant
            ts == table_views(tables@),
            i <= tables.len(),
            operation_views(ops@) == start + whole_tables(schema_name@, ts.take(i as int), create),
        decreases tables.len() - i,
    {
        assert(ts.take(i + 1).drop_last() =~= ts.take(i as int));
        assert(ts.take(i + 1).last() == ts[i as int]);
        let ghost before = ops@;
        let name = name_child(schema_name, &tables[i].0);
        if create {
            ops.push(MigrationOperation::CreateTable { name, table: tables[i].1.clone() });
        } else {
            ops.push(MigrationOperation::DropTable { name, table: tables[i].1.clone() });
        }
        assert(operation_views(ops@) =~= operation_views(before).push(ops@.last()@));
        i = i + 1;
    }
    assert(ts.take(ts.len() as int) =~= ts);
}

/// Appends the operations for a catalog present in both snapshots.
fn gen_schemas(
    ops: &mut Vec<MigrationOperation>,
    catalog_name: &String,
    previous: &Catalog,
    current: &Catalog,
) -> (r: Result<(), Error>)
    ensures
        match catalog_ops(catalog_name@, previous@, current@) {
            Ok(x) => r is Ok && operation_views(final(ops)@) == operation_views(old(ops)@) + x,
            Err(n) => r matches Err(Error::UnsupportedDiff(m)) && m@ == n,
        },
{
    let ghost cn = catalog_name@;
    let ghost p = previous@.schemas;
    let ghost c = current@.schemas;
    let ghost start = operation_views(ops@);
    let mut i: usize = 0;
    assert(p.take(0) =~= seq![]);
    assert(start =~= start + seq![]);
    while i < previous.schemas.len()
        invariant
            cn == catalog_name@,
            p == previous@.schemas,
            c == current@.schemas,
            i <= previous.schemas.len(),
            operation_views(ops@) == start + dropped_schemas(cn, p.take(i as int), c),
        decreases previous.schemas.len() - i,
    {
        assert(p.take(i + 1).drop_last() =~= p.take(i as int));
        assert(p.take(i + 1).last() == p[i as int]);
        let ghost before = operation_views(ops@);
        let entry = &previous.schemas[i];
        if find_schema(&current.schemas, &entry.0).is_none() {
            let schema_name = name_pair(catalog_name, &entry.0);
            push_whole_tables(ops, &schema_name, &entry.1.tables, false);
            let ghost mid = ops@;
            ops.push(MigrationOperation::DropSchema { name: schema_name });
            assert(operation_views(ops@) =~= operation_views(mid).push(ops@.last()@));
            assert(operation_views(ops@) =~= start + dropped_schemas(cn, p.take(i + 1), c));
        }
        i = i + 1;
    }
    assert(p.take(p.len() as int) =~= p);
    let ghost after_dropped = operation_views(ops@);
    let mut i: usize = 0;
    assert(c.take(0) =~= seq![]);
    assert(after_dropped =~= after_dropped + seq![]);
    while i < current.schemas.len()
        invariant
            cn == catalog_name@,
            p == previous@.schemas,
            c == current@.schemas,
            i <= current.schemas.len(),
            operation_views(ops@) == after_dropped + created_schemas(cn, c.take(i as int), p),
        decreases current.schemas.len() - i,
    {
        assert(c.take(i + 1).drop_last() =~= c.take(i as int));
        assert(c.take(i + 1).last() == c[i as int]);
        let ghost before = operation_views(ops@);
        let entry = &current.schemas[i];
        if find_schema(&previous.schemas, &entry.0).is_none() {
            let schema_name = name_pair(catalog_name, &entry.0);
            let ghost sn = schema_name@;
            ops.push(MigrationOperation::CreateSchema { name: name_copy(&schema_name) });
            let ghost mid = operation_views(ops@);
            assert(mid =~= before + seq![OperationView::CreateSchema(sn)]);
            push_whole_tables(ops, &schema_name, &entry.1.tables, true);
            assert(operation_views(ops@) =~= after_dropped + created_schemas(
                cn,
                c.take(i + 1),
                p,
            ));
        }
        i = i + 1;
    }
    assert(c.take(c.len() as int) =~= c);
    let ghost after_created = operation_views(ops@);
    let mut i: usize = 0;
    assert(after_created =~= after_created + seq![]);
    while i < previous.schemas.len()
        invariant
            cn == catalog_name@,
            p == previous@.schemas,
            c == current@.schemas,
            i <= previous.schemas.len(),
            common_schemas(cn, p.take(i as int), c) matches Ok(m) && operation_views(ops@)
                == after_created + m,
        decreases previous.schemas.len() - i,
    {
        assert(p.take(i + 1).drop_last() =~= p.take(i as int));
        assert(p.take(i + 1).last() == p[i as int]);
        let ghost before = operation_views(ops@);
        match find_schema(&current.schemas, &previous.schemas[i].0) {
            None => {},
            Some(k) => {
                assert(lookup_schema(c, p[i as int].0) == Some(current.schemas@[k as int].1@));
                match gen_tables(
                    ops,
                    catalog_name,
                    &previous.schemas[i].0,
                    &previous.schemas[i].1,
                    &current.schemas[k].1,
                ) {
                    Ok(()) => {
                        assert(operation_views(ops@) =~= after_created + common_schemas(
                            cn,
                            p.take(i + 1),
                            c,
                        )->Ok_0) by {
                            assert(before =~= after_created + common_schemas(
                                cn,
                                p.take(i as int),
                                c,
                            )->Ok_0);
                        }
                    },
                    Err(e) => {
                        proof {
                            lemma_common_schemas_stops(cn, p, c, i + 1);
                        }
                        return Err(e);
                    },
                }
            },
        }
        i = i + 1;
    }
    assert(p.take(p.len() as int) =~= p);
    Ok(())
}

/// Appends the migration from `previous` to `current`.
fn gen_catalogs(ops: &mut Vec<MigrationOperation>, previous: &Dbinfo, current: &Dbinfo) -> (r:
    Result<(), Error>)
    ensures
        match migration(previous@, current@) {
            Ok(x) => r is Ok && operation_views(final(ops)@) == operation_views(old(ops)@) + x,
            Err(n) => r matches Err(Error::UnsupportedDiff(m)) && m@ == n,
        },
{
    let ghost p = previous@.catalogs;
    let ghost c = current@.catalogs;
    let ghost start = operation_views(ops@);
    let mut i: usize = 0;
    assert(p.take(0) =~= seq![]);
    assert(start =~= start + seq![]);
    while i < previous.catalogs.len()
        invariant
            p == previous@.catalogs,
            c == current@.catalogs,
            i <= previous.catalogs.len(),
            operation_views(ops@) == start + dropped_catalogs(p.take(i as int), c),
        decreases previous.catalogs.len() - i,
    {
        assert(p.take(i + 1).drop_last() =~= p.take(i as int));
        assert(p.take(i + 1).last() == p[i as int]);
        let ghost before = ops@;
        if find_catalog(&current.catalogs, &previous.catalogs[i].0).is_none() {
            ops.push(MigrationOperation::DropDatabase { name: previous.catalogs[i].0.clone() });
            assert(operation_views(ops@) =~= operation_views(before).push(ops@.last()@));
        }
        i = i + 1;
    }
    assert(p.take(p.len() as int) =~= p);
    let ghost after_dropped = operation_views(ops@);
    let mut i: usize = 0;
    assert(c.take(0) =~= seq![]);
    assert(after_dropped =~= after_dropped + seq![]);
    while i < current.catalogs.len()
        invariant
            p == previous@.catalogs,
            c == current@.catalogs,
            i <= current.catalogs.len(),
            operation_views(ops@) == after_dropped + created_catalogs(c.take(i as int), p),
        decreases current.catalogs.len() - i,
    {
        assert(c.take(i + 1).drop_last() =~= c.take(i as int));
        assert(c.take(i + 1).last() == c[i as int]);
        let ghost before = ops@;
        if find_catalog(&previous.catalogs, &current.catalogs[i].0).is_none() {
            ops.push(MigrationOperation::CreateDatabase { name: current.catalogs[i].0.clone() });
            assert(operation_views(ops@) =~= operation_views(before).push(ops@.last()@));
        }
        i = i + 1;
    }
    assert(c.take(c.len() as int) =~= c);
    let ghost after_created = operation_views(ops@);
    let mut i: usize = 0;
    assert(after_created =~= after_created + seq![]);
    while i < previous.catalogs.len()
        invariant
            p == previous@.catalogs,
            c == current@.catalogs,
            i <= previous.catalogs.len(),
            common_catalogs(p.take(i as int), c) matches Ok(m) && operation_views(ops@)
                == after_created + m,
        decreases previous.catalogs.len() - i,
    {
        assert(p.take(i + 1).drop_last() =~= p.take(i as int));
        assert(p.take(i + 1).last() == p[i as int]);
        let ghost before = operation_views(ops@);
        match find_catalog(&current.catalogs, &previous.catalogs[i].0) {
            None => {},
            Some(k) => {
                assert(lookup_catalog(c, p[i as int].0) == Some(current.catalogs@[k as int].1@));
                match gen_schemas(
                    ops,
                    &previous.catalogs[i].0,
                    &previous.catalogs[i].1,
                    &current.catalogs[k].1,
                ) {
                    Ok(()) => {
                        assert(operation_views(ops@) =~= after_created + common_catalogs(
                            p.take(i + 1),
                            c,
                        )->Ok_0) by {
                            assert(before =~= after_created + common_catalogs(
                                p.take(i as int),
                                c,
                            )->Ok_0);
                        }
                    },
                    Err(e) => {
                        proof {
                            lemma_common_catalogs_stops(p, c, i + 1);
                        }
                        return Err(e);
                    },
                }
            },
        }
        i = i + 1;
    }
    assert(p.take(p.len() as int) =~= p);
    Ok(())
}

/// Computes the migration between two snapshots of a catalog model.
pub struct MigrationGenerator<'a> {
    pub previous: &'a Dbinfo,
    pub current: &'a Dbinfo,
    pub migrations: Migration,
}

impl<'a> MigrationGenerator<'a> {
    pub fn new(previous: &'a Dbinfo, current: &'a Dbinfo) -> (r: Self)
        ensures
            r.previous@ == previous@,
            r.current@ == current@,
            r.migrations@ == Seq::<OperationView>::empty(),
    {
        let r = MigrationGenerator { previous, current, migrations: Migration { operations: Vec::new() } };
        assert(r.migrations@ =~= Seq::<OperationView>::empty());
        r
    }

    /// The operations gathered so far followed by the migration from `previous` to `current`,
    /// or `UnsupportedDiff` with the first table whose columns cannot be changed by appending.
    pub fn generate(self) -> (r: Result<Migration, Error>)
        ensures
            match migration(self.previous@, self.current@) {
                Ok(ops) => r matches Ok(m) && m@ == self.migrations@ + ops,
                Err(n) => r matches Err(Error::UnsupportedDiff(m)) && m@ == n,
            },
    {
        let mut migrations = self.migrations;
        match gen_catalogs(&mut migrations.operations, self.previous, self.current) {
            Ok(()) => Ok(migrations),
            Err(e) => Err(e),
        }
    }
}

/// The migration from `previous` to `current`, as the operations to apply in order.
pub fn diff(previous: &Dbinfo, current: &Dbinfo) -> (r: Result<Migration, Error>)
    ensures
        match migration(previous@, current@) {
            Ok(ops) => r matches Ok(m) && m@ == ops,
            Err(n) => r matches Err(Error::UnsupportedDiff(m)) && m@ == n,
        },
{
    let r = MigrationGenerator::new(previous, current).generate();
    proof {
        if let Ok(ops) = migration(previous@, current@) {
            assert(Seq::<OperationView>::empty() + ops =~= ops);
        }
    }
    r
}

proof fn lemma_tables_unchanged(sn: Seq<Seq<char>>, ts: Seq<(Seq<char>, TableView)>, n: int)
    requires
        unique(table_names(ts)),
        0 <= n <= ts.len(),
    ensures
        dropped_tables(sn, ts.take(n), ts) == Seq::<OperationView>::empty(),
        created_tables(sn, ts.take(n), ts) == Seq::<OperationView>::empty(),
        common_tables(sn, ts.take(n), ts) == Ok::<_, Seq<Seq<char>>>(Seq::<OperationView>::empty()),
    decreases n,
{
    if n > 0 {
        lemma_tables_unchanged(sn, ts, n - 1);
        assert(ts.take(n).drop_last() =~= ts.take(n - 1));
        lemma_position_of_own(table_names(ts), n - 1);
        assert(Seq::<OperationView>::empty() + Seq::<OperationView>::empty() =~= Seq::<
            OperationView,
        >::empty());
    } else {
        assert(ts.take(0) =~= seq![]);
    }
}

proof fn lemma_schema_unchanged(sn: Seq<Seq<char>>, ts: Seq<(Seq<char>, TableView)>)
    requires
        unique(table_names(ts)),
    ensures
        schema_ops(sn, ts, ts) == Ok::<_, Seq<Seq<char>>>(Seq::<OperationView>::empty()),
{
    lemma_tables_unchanged(sn, ts, ts.len() as int);
    assert(ts.take(ts.len() as int) =~= ts);
    assert(Seq::<OperationView>::empty() + Seq::<OperationView>::empty() + Seq::<
        OperationView,
    >::empty() =~= Seq::<OperationView>::empty());
}

proof fn lemma_schemas_unchanged(cn: Seq<char>, ss: Seq<(Seq<char>, SchemaView)>, n: int)
    requires
        unique(schema_names(ss)),
        forall|k: int| 0 <= k < ss.len() ==> (#[trigger] ss[k]).1.wf(),
        0 <= n <= ss.len(),
    ensures
        dropped_schemas(cn, ss.take(n), ss) == Seq::<OperationView>::empty(),
        created_schemas(cn, ss.take(n), ss) == Seq::<OperationView>::empty(),
        common_schemas(cn, ss.take(n), ss) == Ok::<_, Seq<Seq<char>>>(
            Seq::<OperationView>::empty(),
        ),
    decreases n,
{
    if n > 0 {
        lemma_schemas_unchanged(cn, ss, n - 1);
        assert(ss.take(n).drop_last() =~= ss.take(n - 1));
        lemma_position_of_own(schema_names(ss), n - 1);
        assert(ss[n - 1].1.wf());
        lemma_schema_unchanged(seq![cn, ss[n - 1].0], ss[n - 1].1.tables);
        assert(Seq::<OperationView>::empty() + Seq::<OperationView>::empty() =~= Seq::<
            OperationView,
        >::empty());
    } else {
        assert(ss.take(0) =~= seq![]);
    }
}

proof fn lemma_catalogs_unchanged(cs: Seq<(Seq<char>, CatalogView)>, n: int)
    requires
        unique(catalog_names(cs)),
        forall|k: int| 0 <= k < cs.len() ==> (#[trigger] cs[k]).1.wf(),
        0 <= n <= cs.len(),
    ensures
        dropped_catalogs(cs.take(n), cs) == Seq::<OperationView>::empty(),
        created_catalogs(cs.take(n), cs) == Seq::<OperationView>::empty(),
        common_catalogs(cs.take(n), cs) == Ok::<_, Seq<Seq<char>>>(Seq::<OperationView>::empty()),
    decreases n,
{
    if n > 0 {
        lemma_catalogs_unchanged(cs, n - 1);
        assert(cs.take(n).drop_last() =~= cs.take(n - 1));
        lemma_position_of_own(catalog_names(cs), n - 1);
        let k = cs[n - 1].1;
        assert(k.wf());
        lemma_schemas_unchanged(cs[n - 1].0, k.schemas, k.schemas.len() as int);
        assert(k.schemas.take(k.schemas.len() as int) =~= k.schemas);
        assert(Seq::<OperationView>::empty() + Seq::<OperationView>::empty() =~= Seq::<
            OperationView,
        >::empty());
        assert(Seq::<OperationView>::empty() + Seq::<OperationView>::empty() + Seq::<
            OperationView,
        >::empty() =~= Seq::<OperationView>::empty());
    } else {
        assert(cs.take(0) =~= seq![]);
    }
}

/// Diffing a snapshot against itself yields no operation at all.
pub proof fn law_diff_with_itself_is_empty(s: Dbinfo)
    requires
        s@.wf(),
    ensures
        migration(s@, s@) == Ok::<_, Seq<Seq<char>>>(Seq::<OperationView>::empty()),
{
    let cs = s@.catalogs;
    lemma_catalogs_unchanged(cs, cs.len() as int);
    assert(cs.take(cs.len() as int) =~= cs);
    assert(Seq::<OperationView>::empty() + Seq::<OperationView>::empty() + Seq::<
        OperationView,
    >::empty() =~= Seq::<OperationView>::empty());
}

} // verus!
