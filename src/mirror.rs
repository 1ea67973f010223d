use vstd::prelude::*;

use crate::dbinfo::{
    catalog_names, lemma_position, lemma_position_of_own, lookup_catalog, lookup_schema,
    lookup_table, schema_names, CatalogView, Dbinfo, SchemaView, TableView,
};
use crate::migrate::{
    catalog_ops, column_names, column_ops, common_catalogs, common_schemas, common_tables,
    created_catalogs, created_schemas, created_tables, dropped_catalogs, dropped_schemas,
    dropped_tables, lcs_alignment, migration, schema_ops, whole_tables, Edit, OperationView,
};

verus! {

/// The operation that undoes `op` at the same level: a creation for a drop and back.
pub open spec fn mirror(op: OperationView) -> OperationView {
    match op {
        OperationView::CreateDatabase(n) => OperationView::DropDatabase(n),
        OperationView::DropDatabase(n) => OperationView::CreateDatabase(n),
        OperationView::CreateSchema(n) => OperationView::DropSchema(n),
        OperationView::DropSchema(n) => OperationView::CreateSchema(n),
        OperationView::CreateTable(n, t) => OperationView::DropTable(n, t),
        OperationView::DropTable(n, t) => OperationView::CreateTable(n, t),
        _ => op,
    }
}

/// `op` creates or drops a database, a schema or a table.
pub open spec fn creates_or_drops(op: OperationView) -> bool {
    ||| op is CreateDatabase
    ||| op is DropDatabase
    ||| op is CreateSchema
    ||| op is DropSchema
    ||| op is CreateTable
    ||| op is DropTable
}

/// `a` is `b` with each operation mirrored.
pub open spec fn mirrored(a: Seq<OperationView>, b: Seq<OperationView>) -> bool {
    &&& a.len() == b.len()
    &&& forall|i: int| 0 <= i < a.len() ==> a[i] == mirror(#[trigger] b[i]) && b[i] == mirror(a[i])
}

proof fn lemma_contains_concat<A>(a: Seq<A>, b: Seq<A>, x: A)
    ensures
        (a + b).contains(x) == (a.contains(x) || b.contains(x)),
{
    if (a + b).contains(x) {
        let i = choose|i: int| 0 <= i < (a + b).len() && (a + b)[i] == x;
        if i < a.len() {
            assert(a[i] == x);
        } else {
            assert(b[i - a.len()] == x);
        }
    }
    if a.contains(x) {
        let i = choose|i: int| 0 <= i < a.len() && a[i] == x;
        assert((a + b)[i] == x);
    }
    if b.contains(x) {
        let i = choose|i: int| 0 <= i < b.len() && b[i] == x;
        assert((a + b)[a.len() + i] == x);
    }
}

proof fn lemma_mirrored_member(a: Seq<OperationView>, b: Seq<OperationView>, op: OperationView)
    requires
        mirrored(a, b),
    ensures
        b.contains(op) ==> a.contains(mirror(op)),
        a.contains(op) ==> b.contains(mirror(op)),
{
    if b.contains(op) {
        let i = choose|i: int| 0 <= i < b.len() && b[i] == op;
        assert(a[i] == mirror(b[i]));
    }
    if a.contains(op) {
        let i = choose|i: int| 0 <= i < a.len() && a[i] == op;
        assert(b[i] == mirror(a[i]));
    }
}

proof fn lemma_unmatched_tables_mirrored(sn: Seq<Seq<char>>, x: Seq<(Seq<char>, TableView)>, y: Seq<(Seq<char>, TableView)>)
    ensures
        mirrored(dropped_tables(sn, x, y), created_tables(sn, x, y)),
    decreases x.len(),
{
    if x.len() > 0 {
        lemma_unmatched_tables_mirrored(sn, x.drop_last(), y);
    }
}

proof fn lemma_whole_tables_mirrored(sn: Seq<Seq<char>>, ts: Seq<(Seq<char>, TableView)>)
    ensures
        mirrored(whole_tables(sn, ts, false), whole_tables(sn, ts, true)),
    decreases ts.len(),
{
    if ts.len() > 0 {
        lemma_whole_tables_mirrored(sn, ts.drop_last());
    }
}

proof fn lemma_unmatched_catalogs_mirrored(x: Seq<(Seq<char>, CatalogView)>, y: Seq<(Seq<char>, CatalogView)>)
    ensures
        mirrored(dropped_catalogs(x, y), created_catalogs(x, y)),
    decreases x.len(),
{
    if x.len() > 0 {
        lemma_unmatched_catalogs_mirrored(x.drop_last(), y);
    }
}

proof fn lemma_column_ops_alter_only(
    tn: Seq<Seq<char>>,
    e: Seq<Edit>,
    p: Seq<crate::dbinfo::ColumnView>,
    c: Seq<crate::dbinfo::ColumnView>,
)
    ensures
        forall|i: int|
            0 <= i < column_ops(tn, e, p, c).len() ==> !creates_or_drops(
                #[trigger] column_ops(tn, e, p, c)[i],
            ),
    decreases e.len(),
{
    if e.len() > 0 {
        let pre = e.drop_last();
        lemma_column_ops_alter_only(tn, pre, p, c);
        let rest = column_ops(tn, pre, p, c);
        let all = column_ops(tn, e, p, c);
        assert(all.len() == rest.len() + 1);
        assert forall|i: int| 0 <= i < all.len() implies !creates_or_drops(#[trigger] all[i]) by {
            if i < rest.len() {
                assert(all[i] == rest[i]);
            }
        }
    }
}

proof fn lemma_common_tables_alter_only(sn: Seq<Seq<char>>, p: Seq<(Seq<char>, TableView)>, c: Seq<(Seq<char>, TableView)>)
    requires
        common_tables(sn, p, c) is Ok,
    ensures
        forall|i: int|
            0 <= i < common_tables(sn, p, c)->Ok_0.len() ==> !creates_or_drops(
                #[trigger] common_tables(sn, p, c)->Ok_0[i],
            ),
    decreases p.len(),
{
    if p.len() > 0 {
        lemma_common_tables_alter_only(sn, p.drop_last(), c);
        if let Some(ct) = lookup_table(c, p.last().0) {
            lemma_column_ops_alter_only(
                sn.push(p.last().0),
                lcs_alignment(column_names(p.last().1.columns), column_names(ct.columns)),
                p.last().1.columns,
                ct.columns,
            );
        }
    }
}

/// Within a schema present in both snapshots, each creation or drop one way is undone by
/// the other way.
proof fn lemma_schema_ops_mirror(
    sn: Seq<Seq<char>>,
    p: Seq<(Seq<char>, TableView)>,
    c: Seq<(Seq<char>, TableView)>,
    op: OperationView,
)
    requires
        schema_ops(sn, p, c) is Ok,
        schema_ops(sn, c, p) is Ok,
        schema_ops(sn, p, c)->Ok_0.contains(op),
        creates_or_drops(op),
    ensures
        schema_ops(sn, c, p)->Ok_0.contains(mirror(op)),
{
    let m = common_tables(sn, p, c)->Ok_0;
    let m2 = common_tables(sn, c, p)->Ok_0;
    let d = dropped_tables(sn, p, c);
    let cr = created_tables(sn, c, p);
    let d2 = dropped_tables(sn, c, p);
    let cr2 = created_tables(sn, p, c);
    lemma_contains_concat(d + cr, m, op);
    lemma_contains_concat(d, cr, op);
    lemma_contains_concat(d2 + cr2, m2, mirror(op));
    lemma_contains_concat(d2, cr2, mirror(op));
    lemma_unmatched_tables_mirrored(sn, p, c);
    lemma_unmatched_tables_mirrored(sn, c, p);
    lemma_mirrored_member(d, cr2, op);
    lemma_mirrored_member(d2, cr, op);
    if m.contains(op) {
        lemma_common_tables_alter_only(sn, p, c);
        let i = choose|i: int| 0 <= i < m.len() && m[i] == op;
        assert(!creates_or_drops(m[i]));
    }
}

proof fn lemma_unmatched_schemas_mirror(
    cn: Seq<char>,
    x: Seq<(Seq<char>, SchemaView)>,
    y: Seq<(Seq<char>, SchemaView)>,
    op: OperationView,
)
    ensures
        dropped_schemas(cn, x, y).contains(op) ==> created_schemas(cn, x, y).contains(
            mirror(op),
        ),
        created_schemas(cn, x, y).contains(op) ==> dropped_schemas(cn, x, y).contains(
            mirror(op),
        ),
    decreases x.len(),
{
    if x.len() > 0 {
        lemma_unmatched_schemas_mirror(cn, x.drop_last(), y, op);
        let s = x.last();
        if lookup_schema(y, s.0) is None {
            let sn = seq![cn, s.0];
            let wd = whole_tables(sn, s.1.tables, false);
            let wc = whole_tables(sn, s.1.tables, true);
            let rd = dropped_schemas(cn, x.drop_last(), y);
            let rc = created_schemas(cn, x.drop_last(), y);
            let ds = seq![OperationView::DropSchema(sn)];
            let cs = seq![OperationView::CreateSchema(sn)];
            assert(wd.push(OperationView::DropSchema(sn)) =~= wd + ds);
            assert(dropped_schemas(cn, x, y) =~= rd + (wd + ds));
            assert(created_schemas(cn, x, y) =~= rc + cs + wc);
            lemma_whole_tables_mirrored(sn, s.1.tables);
            lemma_mirrored_member(wd, wc, op);
            lemma_mirrored_member(wd, wc, mirror(op));
            lemma_contains_concat(rd, wd + ds, op);
            lemma_contains_concat(wd, ds, op);
            lemma_contains_concat(rc + cs, wc, mirror(op));
            lemma_contains_concat(rc, cs, mirror(op));
            lemma_contains_concat(rc + cs, wc, op);
            lemma_contains_concat(rc, cs, op);
            lemma_contains_concat(rd, wd + ds, mirror(op));
            lemma_contains_concat(wd, ds, mirror(op));
            assert(cs[0] == OperationView::CreateSchema(sn));
            assert(ds[0] == OperationView::DropSchema(sn));
            if ds.contains(op) {
                assert(op == OperationView::DropSchema(sn));
                assert(cs.contains(mirror(op)));
            }
            if cs.contains(op) {
                assert(op == OperationView::CreateSchema(sn));
                assert(ds.contains(mirror(op)));
            }
        }
    }
}

/// An operation of an `Ok` run over the schemas common to both sides comes from one of them.
proof fn lemma_common_schemas_source(
    cn: Seq<char>,
    p: Seq<(Seq<char>, SchemaView)>,
    c: Seq<(Seq<char>, SchemaView)>,
    op: OperationView,
) -> (i: int)
    requires
        common_schemas(cn, p, c) is Ok,
        common_schemas(cn, p, c)->Ok_0.contains(op),
    ensures
        0 <= i < p.len(),
        lookup_schema(c, p[i].0) is Some,
        schema_ops(seq![cn, p[i].0], p[i].1.tables, lookup_schema(c, p[i].0)->Some_0.tables) is Ok,
        schema_ops(
            seq![cn, p[i].0],
            p[i].1.tables,
            lookup_schema(c, p[i].0)->Some_0.tables,
        )->Ok_0.contains(op),
    decreases p.len(),
{
    let rest = common_schemas(cn, p.drop_last(), c);
    let k = p.len() - 1;
    assert(p.drop_last().len() == k);
    lemma_contains_concat(rest->Ok_0, common_schemas(cn, p, c)->Ok_0.subrange(rest->Ok_0.len() as int, common_schemas(cn, p, c)->Ok_0.len() as int), op);
    match lookup_schema(c, p.last().0) {
        None => {
            let i = lemma_common_schemas_source(cn, p.drop_last(), c, op);
            assert(p[i] == p.drop_last()[i]);
            i
        },
        Some(cs) => {
            let more = schema_ops(seq![cn, p.last().0], p.last().1.tables, cs.tables)->Ok_0;
            assert(common_schemas(cn, p, c)->Ok_0 == rest->Ok_0 + more);
            lemma_contains_concat(rest->Ok_0, more, op);
            if rest->Ok_0.contains(op) {
                let i = lemma_common_schemas_source(cn, p.drop_last(), c, op);
                assert(p[i] == p.drop_last()[i]);
                i
            } else {
                k
            }
        },
    }
}

/// Each schema common to both sides contributes its whole run to an `Ok` result.
proof fn lemma_common_schemas_include(cn: Seq<char>, p: Seq<(Seq<char>, SchemaView)>, c: Seq<(Seq<char>, SchemaView)>, i: int)
    requires
        common_schemas(cn, p, c) is Ok,
        0 <= i < p.len(),
        lookup_schema(c, p[i].0) is Some,
    ensures
        schema_ops(seq![cn, p[i].0], p[i].1.tables, lookup_schema(c, p[i].0)->Some_0.tables) is Ok,
        forall|op: OperationView|
            schema_ops(
                seq![cn, p[i].0],
                p[i].1.tables,
                lookup_schema(c, p[i].0)->Some_0.tables,
            )->Ok_0.contains(op) ==> #[trigger] common_schemas(cn, p, c)->Ok_0.contains(op),
    decreases p.len(),
{
    let rest = common_schemas(cn, p.drop_last(), c);
    let whole = common_schemas(cn, p, c)->Ok_0;
    if i < p.len() - 1 {
        assert(p[i] == p.drop_last()[i]);
        lemma_common_schemas_include(cn, p.drop_last(), c, i);
        assert forall|op: OperationView| rest->Ok_0.contains(op) implies whole.contains(op) by {
            match lookup_schema(c, p.last().0) {
                None => {},
                Some(cs) => {
                    lemma_contains_concat(
                        rest->Ok_0,
                        schema_ops(seq![cn, p.last().0], p.last().1.tables, cs.tables)->Ok_0,
                        op,
                    );
                },
            }
        }
    } else {
        let cs = lookup_schema(c, p.last().0)->Some_0;
        let more = schema_ops(seq![cn, p.last().0], p.last().1.tables, cs.tables)->Ok_0;
        assert forall|op: OperationView| more.contains(op) implies whole.contains(op) by {
            lemma_contains_concat(rest->Ok_0, more, op);
        }
    }
}

/// Within a catalog present in both snapshots, each creation or drop one way is undone by
/// the other way.
proof fn lemma_catalog_ops_mirror(n: Seq<char>, a: CatalogView, b: CatalogView, op: OperationView)
    requires
        a.wf(),
        b.wf(),
        catalog_ops(n, a, b) is Ok,
        catalog_ops(n, b, a) is Ok,
        catalog_ops(n, a, b)->Ok_0.contains(op),
        creates_or_drops(op),
    ensures
        catalog_ops(n, b, a)->Ok_0.contains(mirror(op)),
{
    let m = common_schemas(n, a.schemas, b.schemas)->Ok_0;
    let m2 = common_schemas(n, b.schemas, a.schemas)->Ok_0;
    let d = dropped_schemas(n, a.schemas, b.schemas);
    let cr = created_schemas(n, b.schemas, a.schemas);
    let d2 = dropped_schemas(n, b.schemas, a.schemas);
    let cr2 = created_schemas(n, a.schemas, b.schemas);
    lemma_contains_concat(d + cr, m, op);
    lemma_contains_concat(d, cr, op);
    lemma_contains_concat(d2 + cr2, m2, mirror(op));
    lemma_contains_concat(d2, cr2, mirror(op));
    lemma_unmatched_schemas_mirror(n, a.schemas, b.schemas, op);
    lemma_unmatched_schemas_mirror(n, b.schemas, a.schemas, op);
    if m.contains(op) {
        let i = lemma_common_schemas_source(n, a.schemas, b.schemas, op);
        let key = a.schemas[i].0;
        let s = a.schemas[i].1;
        let cs = lookup_schema(b.schemas, key)->Some_0;
        lemma_position(schema_names(b.schemas), key);
        let j = crate::dbinfo::position(schema_names(b.schemas), key)->Some_0;
        assert(b.schemas[j].1 == cs);
        assert(b.schemas[j].0 == key);
        lemma_position_of_own(schema_names(a.schemas), i);
        assert(lookup_schema(a.schemas, b.schemas[j].0) == Some(s));
        lemma_common_schemas_include(n, b.schemas, a.schemas, j);
        lemma_schema_ops_mirror(seq![n, key], s.tables, cs.tables, op);
        assert(m2.contains(mirror(op)));
    }
}

proof fn lemma_common_catalogs_source(p: Seq<(Seq<char>, CatalogView)>, c: Seq<(Seq<char>, CatalogView)>, op: OperationView) -> (i: int)
    requires
        common_catalogs(p, c) is Ok,
        common_catalogs(p, c)->Ok_0.contains(op),
    ensures
        0 <= i < p.len(),
        lookup_catalog(c, p[i].0) is Some,
        catalog_ops(p[i].0, p[i].1, lookup_catalog(c, p[i].0)->Some_0) is Ok,
        catalog_ops(p[i].0, p[i].1, lookup_catalog(c, p[i].0)->Some_0)->Ok_0.contains(op),
    decreases p.len(),
{
    let rest = common_catalogs(p.drop_last(), c);
    let k = p.len() - 1;
    assert(p.drop_last().len() == k);
    match lookup_catalog(c, p.last().0) {
        None => {
            let i = lemma_common_catalogs_source(p.drop_last(), c, op);
            assert(p[i] == p.drop_last()[i]);
            i
        },
        Some(cc) => {
            let more = catalog_ops(p.last().0, p.last().1, cc)->Ok_0;
            assert(common_catalogs(p, c)->Ok_0 == rest->Ok_0 + more);
            lemma_contains_concat(rest->Ok_0, more, op);
            if rest->Ok_0.contains(op) {
                let i = lemma_common_catalogs_source(p.drop_last(), c, op);
                assert(p[i] == p.drop_last()[i]);
                i
            } else {
                k
            }
        },
    }
}

proof fn lemma_common_catalogs_include(p: Seq<(Seq<char>, CatalogView)>, c: Seq<(Seq<char>, CatalogView)>, i: int)
    requires
        common_catalogs(p, c) is Ok,
        0 <= i < p.len(),
        lookup_catalog(c, p[i].0) is Some,
    ensures
        catalog_ops(p[i].0, p[i].1, lookup_catalog(c, p[i].0)->Some_0) is Ok,
        forall|op: OperationView|
            catalog_ops(p[i].0, p[i].1, lookup_catalog(c, p[i].0)->Some_0)->Ok_0.contains(op)
                ==> #[trigger] common_catalogs(p, c)->Ok_0.contains(op),
    decreases p.len(),
{
    let rest = common_catalogs(p.drop_last(), c);
    let whole = common_catalogs(p, c)->Ok_0;
    if i < p.len() - 1 {
        assert(p[i] == p.drop_last()[i]);
        lemma_common_catalogs_include(p.drop_last(), c, i);
        assert forall|op: OperationView| rest->Ok_0.contains(op) implies whole.contains(op) by {
            match lookup_catalog(c, p.last().0) {
                None => {},
                Some(cc) => {
                    lemma_contains_concat(rest->Ok_0, catalog_ops(p.last().0, p.last().1, cc)->Ok_0, op);
                },
            }
        }
    } else {
        let cc = lookup_catalog(c, p.last().0)->Some_0;
        let more = catalog_ops(p.last().0, p.last().1, cc)->Ok_0;
        assert forall|op: OperationView| more.contains(op) implies whole.contains(op) by {
            lemma_contains_concat(rest->Ok_0, more, op);
        }
    }
}

/// Each creation of a database, schema or table in the migration from `p` to `c` is matched
/// by a drop of the same object in the migration from `c` to `p`, and each drop by a
/// creation, when both migrations succeed.
pub proof fn law_creations_and_drops_mirror(p: Dbinfo, c: Dbinfo, op: OperationView)
    requires
        p@.wf(),
        c@.wf(),
        migration(p@, c@) is Ok,
        migration(c@, p@) is Ok,
        migration(p@, c@)->Ok_0.contains(op),
        creates_or_drops(op),
    ensures
        migration(c@, p@)->Ok_0.contains(mirror(op)),
{
    let pc = p@.catalogs;
    let cc = c@.catalogs;
    let m = common_catalogs(pc, cc)->Ok_0;
    let m2 = common_catalogs(cc, pc)->Ok_0;
    let d = dropped_catalogs(pc, cc);
    let cr = created_catalogs(cc, pc);
    let d2 = dropped_catalogs(cc, pc);
    let cr2 = created_catalogs(pc, cc);
    lemma_contains_concat(d + cr, m, op);
    lemma_contains_concat(d, cr, op);
    lemma_contains_concat(d2 + cr2, m2, mirror(op));
    lemma_contains_concat(d2, cr2, mirror(op));
    lemma_unmatched_catalogs_mirrored(pc, cc);
    lemma_unmatched_catalogs_mirrored(cc, pc);
    lemma_mirrored_member(d, cr2, op);
    lemma_mirrored_member(d2, cr, op);
    if m.contains(op) {
        let i = lemma_common_catalogs_source(pc, cc, op);
        let key = pc[i].0;
        let a = pc[i].1;
        let b = lookup_catalog(cc, key)->Some_0;
        lemma_position(catalog_names(cc), key);
        let j = crate::dbinfo::position(catalog_names(cc), key)->Some_0;
        assert(cc[j].1 == b);
        assert(cc[j].0 == key);
        lemma_position_of_own(catalog_names(pc), i);
        assert(lookup_catalog(pc, cc[j].0) == Some(a));
        lemma_common_catalogs_include(cc, pc, j);
        assert(a.wf());
        assert(b.wf());
        lemma_catalog_ops_mirror(key, a, b, op);
        assert(m2.contains(mirror(op)));
    }
}

} // verus!
