//! The database reader: page access, B-tree traversal, and the query
//! planner and executor.

use vstd::prelude::*;

use crate::cell::TableInteriorCell;
use crate::db_header::{spec_page_size, DBHeader};
use crate::error::DbError;
use crate::numeric::{spec_cmp_lit_value, CmpResult, Literal, SpecLiteral};
use crate::page::{
    parse_index_interior, parse_index_leaf, parse_table_interior, parse_table_leaf, spec_cell_pointers,
    spec_index_interior, spec_index_leaf, spec_leaf_rows_from, spec_pages, spec_table_interior,
    spec_table_leaf_rows,
};
use crate::page_header::{spec_page_header, BTreePage, PageHeader};
use crate::record::{SpecValue, Value};
use crate::schema::{spec_schema_of_row, Schema, SpecSchema};
use crate::sql::{Select, SpecSelect};

verus! {

/// A read-only database: the file's bytes and its decoded header.
pub struct DB {
    data: Vec<u8>,
    header: DBHeader,
}

impl View for DB {
    type V = Seq<u8>;

    closed spec fn view(&self) -> Seq<u8> {
        self.data@
    }
}

/// How deep any traversal may recurse before the file is declared
/// malformed: one more than the page count, since a longer root-to-leaf
/// path must revisit a page and the tree would be cyclic.
pub open spec fn spec_fuel(file: Seq<u8>) -> nat {
    if spec_page_size(file) == 0 {
        1
    } else if file.len() / spec_page_size(file) + 1 > 0xFFFF_FFFF_FFFF_FFFF {
        0xFFFF_FFFF_FFFF_FFFF
    } else {
        file.len() / spec_page_size(file) + 1
    }
}

/// The bytes of page `n` (pages are numbered from one), or `None` when the
/// page lies outside the file.
pub open spec fn spec_page(file: Seq<u8>, n: u64) -> Option<Seq<u8>> {
    let ps = spec_page_size(file);
    if n < 1 {
        None
    } else if n * ps > file.len() {
        None
    } else {
        Some(file.subrange((n - 1) * ps, n * ps))
    }
}

/// Page `n` together with its parsed header and the in-page offset at
/// which the header starts (one hundred on page one).
pub open spec fn spec_read_page(file: Seq<u8>, n: u64) -> Result<
    (int, PageHeader, Seq<u8>),
    DbError,
> {
    match spec_page(file, n) {
        None => Err(DbError::Malformed),
        Some(page) => {
            let off: int = if n == 1 {
                100
            } else {
                0
            };
            match spec_page_header(page, off) {
                None => Err(DbError::Malformed),
                Some(h) => Ok((off, h, page)),
            }
        },
    }
}

impl DB {
    /// The stored header matches the file bytes.
    pub closed spec fn wf(&self) -> bool {
        &&& self.data@.len() >= 100
        &&& self.header.page_size == spec_page_size(self.data@)
    }

    /// Takes ownership of a database file's bytes and decodes its header.
    /// Fails exactly when the file is shorter than the hundred-byte
    /// header.
    pub fn new(data: Vec<u8>) -> (r: Result<DB, DbError>)
        ensures
            match r {
                Ok(db) => db.wf() && db@ == data@ && data@.len() >= 100,
                Err(e) => e == DbError::Malformed && data@.len() < 100,
            },
    {
        let header = match DBHeader::parse(data.as_slice()) {
            Err(e) => {
                return Err(e);
            },
            Ok(h) => h,
        };
        Ok(DB { data, header })
    }

    /// Reads page `n`: its header offset, parsed header, and bytes.
    fn read_page(&self, n: u64) -> (r: Result<(usize, PageHeader, Vec<u8>), DbError>)
        requires
            self.wf(),
        ensures
            match r {
                Ok((off, h, page)) => spec_read_page(self@, n) == Ok::<
                    (int, PageHeader, Seq<u8>),
                    DbError,
                >((off as int, h, page@)),
                Err(e) => spec_read_page(self@, n) == Err::<(int, PageHeader, Seq<u8>), DbError>(
                    e,
                ),
            },
    {
        let ps: usize = self.header.page_size;
        let dlen: usize = self.data.len();
        if n < 1 {
            return Err(DbError::Malformed);
        }
        if ps == 0 {
            proof {
                assert(n * 0 == 0 && (n - 1) * 0 == 0) by (nonlinear_arith);
                assert(spec_page(self@, n) == Some(self@.subrange(0, 0)));
                assert(self@.subrange(0, 0).len() == 0);
            }
            return Err(DbError::Malformed);
        }
        proof {
            assert((n as int) * (ps as int) < 0x1_0000_0000_0000_0000_0000_0000_0000_0000)
                by (nonlinear_arith)
                requires
                    n < 0x1_0000_0000_0000_0000,
                    ps < 0x1_0000_0000_0000_0000,
            ;
        }
        if (n as u128) * (ps as u128) > (dlen as u128) {
            return Err(DbError::Malformed);
        }
        proof {
            assert(n * ps <= dlen);
            assert(n <= n * ps && (n - 1) * ps <= n * ps && (n - 1) * ps + ps == n * ps)
                by (nonlinear_arith)
                requires
                    n >= 1,
                    ps >= 1,
            ;
        }
        let nm1: usize = (n - 1) as usize;
        let start: usize = nm1 * ps;
        let page = crate::record::copy_range(self.data.as_slice(), start, ps);
        proof {
            assert(page@ =~= self@.subrange((n - 1) * ps, n * ps));
        }
        let off: usize = if n == 1 {
            100
        } else {
            0
        };
        let h = match PageHeader::parse(page.as_slice(), off) {
            Err(e) => {
                return Err(e);
            },
            Ok(h) => h,
        };
        Ok((off, h, page))
    }
}

/// The child a rowid belongs under: the first cell (from `i`) whose key is
/// at least the rowid, or the cell count for the right-most child.
pub open spec fn spec_child_index(cells: Seq<TableInteriorCell>, k: u64, i: int) -> int
    decreases cells.len() - i,
{
    if i < 0 || i >= cells.len() {
        cells.len() as int
    } else if k <= cells[i].key {
        i
    } else {
        spec_child_index(cells, k, i + 1)
    }
}

/// The rowids (from index `i` of `keys` on, in `keys` order) that belong
/// under child `j`.
pub open spec fn spec_key_group(keys: Seq<u64>, cells: Seq<TableInteriorCell>, j: int, i: int) -> Seq<
    u64,
>
    decreases keys.len() - i,
{
    if i < 0 || i >= keys.len() {
        Seq::empty()
    } else {
        let rest = spec_key_group(keys, cells, j, i + 1);
        if spec_child_index(cells, keys[i], 0) == j {
            seq![keys[i]].add(rest)
        } else {
            rest
        }
    }
}

/// The rows (from index `i` on) whose first column, read as a rowid, is
/// among `keys`.  A row whose first column has no rowid reading makes the
/// file malformed.
pub open spec fn spec_filter_keyed(rows: Seq<Seq<SpecValue>>, keys: Seq<u64>, i: int) -> Result<
    Seq<Seq<SpecValue>>,
    DbError,
>
    decreases rows.len() - i,
{
    if i < 0 || i >= rows.len() {
        Ok(Seq::empty())
    } else if rows[i].len() == 0 {
        Err(DbError::Malformed)
    } else {
        match rows[i][0].rowid() {
            None => Err(DbError::Malformed),
            Some(rid) => match spec_filter_keyed(rows, keys, i + 1) {
                Err(e) => Err(e),
                Ok(rest) => if keys.contains(rid) {
                    Ok(seq![rows[i]].add(rest))
                } else {
                    Ok(rest)
                },
            },
        }
    }
}

/// A point lookup in the table tree rooted at `page_no`: the rows whose
/// rowids are among `keys`.  On an interior page the keys are grouped by
/// the child each belongs under, and only children with keys are visited.
pub open spec fn spec_lookup(file: Seq<u8>, cc: nat, page_no: u64, keys: Seq<u64>, fuel: nat) -> Result<
    Seq<Seq<SpecValue>>,
    DbError,
>
    decreases fuel, 0int, 0int,
{
    if fuel == 0 {
        Err(DbError::Malformed)
    } else {
        match spec_read_page(file, page_no) {
            Err(e) => Err(e),
            Ok((off, h, page)) => match h.page_type {
                BTreePage::LeafTable => match spec_table_leaf_rows(page, off, h, cc) {
                    None => Err(DbError::Malformed),
                    Some(rows) => spec_filter_keyed(rows, keys, 0),
                },
                BTreePage::InteriorTable => match spec_table_interior(page, off, h) {
                    None => Err(DbError::Malformed),
                    Some((cells, right)) => spec_lookup_children(
                        file,
                        cc,
                        cells,
                        right,
                        keys,
                        (fuel - 1) as nat,
                        0,
                    ),
                },
                _ => Err(DbError::NotATable),
            },
        }
    }
}

/// The concatenated lookups under the children from index `j` on, each
/// with its group of keys; children with no keys are skipped.
pub open spec fn spec_lookup_children(
    file: Seq<u8>,
    cc: nat,
    cells: Seq<TableInteriorCell>,
    right: u32,
    keys: Seq<u64>,
    fuel: nat,
    j: int,
) -> Result<Seq<Seq<SpecValue>>, DbError>
    decreases fuel, 1int, cells.len() + 1 - j,
{
    if j < 0 || j > cells.len() {
        Ok(Seq::empty())
    } else {
        let child = if j < cells.len() {
            cells[j].left_child_page
        } else {
            right
        };
        let group = spec_key_group(keys, cells, j, 0);
        if group.len() == 0 {
            spec_lookup_children(file, cc, cells, right, keys, fuel, j + 1)
        } else {
            match spec_lookup(file, cc, child as u64, group, fuel) {
                Err(e) => Err(e),
                Ok(rows) => match spec_lookup_children(file, cc, cells, right, keys, fuel, j + 1) {
                    Err(e) => Err(e),
                    Ok(rest) => Ok(rows.add(rest)),
                },
            }
        }
    }
}

/// A full scan of the table tree rooted at `page_no`, parsing records of
/// `cc` columns: every leaf row, leaves visited left to right.
pub open spec fn spec_scan(file: Seq<u8>, cc: nat, page_no: u64, fuel: nat) -> Result<
    Seq<Seq<SpecValue>>,
    DbError,
>
    decreases fuel, 0int, 0int,
{
    if fuel == 0 {
        Err(DbError::Malformed)
    } else {
        match spec_read_page(file, page_no) {
            Err(e) => Err(e),
            Ok((off, h, page)) => match h.page_type {
                BTreePage::LeafTable => match spec_table_leaf_rows(page, off, h, cc) {
                    None => Err(DbError::Malformed),
                    Some(rows) => Ok(rows),
                },
                BTreePage::InteriorTable => match spec_table_interior(page, off, h) {
                    None => Err(DbError::Malformed),
                    Some((cells, right)) => spec_scan_children(
                        file,
                        cc,
                        spec_pages(cells, right),
                        (fuel - 1) as nat,
                        0,
                    ),
                },
                _ => Err(DbError::NotATable),
            },
        }
    }
}

/// The concatenated scans of the children from index `i` on.
pub open spec fn spec_scan_children(
    file: Seq<u8>,
    cc: nat,
    children: Seq<u32>,
    fuel: nat,
    i: int,
) -> Result<Seq<Seq<SpecValue>>, DbError>
    decreases fuel, 1int, children.len() - i,
{
    if i < 0 || i >= children.len() {
        Ok(Seq::empty())
    } else {
        match spec_scan(file, cc, children[i] as u64, fuel) {
            Err(e) => Err(e),
            Ok(rows) => match spec_scan_children(file, cc, children, fuel, i + 1) {
                Err(e) => Err(e),
                Ok(rest) => Ok(rows.add(rest)),
            },
        }
    }
}

impl DB {
    /// Scans the table tree rooted at `page_no` for rows of `column_count`
    /// columns.
    fn scan_tree(&self, column_count: usize, page_no: u64, fuel: u64) -> (r: Result<
        Vec<Vec<Value>>,
        DbError,
    >)
        requires
            self.wf(),
        ensures
            match r {
                Ok(rows) => spec_scan(self@, column_count as nat, page_no, fuel as nat) == Ok::<
                    Seq<Seq<SpecValue>>,
                    DbError,
                >(rows.deep_view()),
                Err(e) => spec_scan(self@, column_count as nat, page_no, fuel as nat) == Err::<
                    Seq<Seq<SpecValue>>,
                    DbError,
                >(e),
            },
        decreases fuel,
    {
        if fuel == 0 {
            return Err(DbError::Malformed);
        }
        let (off, h, page) = match self.read_page(page_no) {
            Err(e) => {
                return Err(e);
            },
            Ok(p) => p,
        };
        match h.page_type {
            BTreePage::LeafTable => parse_table_leaf(page.as_slice(), off, &h, column_count),
            BTreePage::InteriorTable => {
                let tree = match parse_table_interior(page.as_slice(), off, &h) {
                    Err(e) => {
                        return Err(e);
                    },
                    Ok(t) => t,
                };
                let children = tree.pages();
                let ghost cv = children@;
                let mut rows: Vec<Vec<Value>> = Vec::new();
                let mut i: usize = 0;
                proof {
                    if spec_scan_children(self@, column_count as nat, cv, (fuel - 1) as nat, 0)
                        is Ok {
                        let rest = spec_scan_children(
                            self@,
                            column_count as nat,
                            cv,
                            (fuel - 1) as nat,
                            0,
                        ).unwrap();
                        assert(Seq::<Seq<SpecValue>>::empty().add(rest) =~= rest);
                    }
                }
                while i < children.len()
                    invariant
                        self.wf(),
                        i <= cv.len(),
                        cv == children@,
                        fuel >= 1,
                        spec_scan(self@, column_count as nat, page_no, fuel as nat) == (match
                            spec_scan_children(
                            self@,
                            column_count as nat,
                            cv,
                            (fuel - 1) as nat,
                            i as int,
                        ) {
                            Err(e) => Err::<Seq<Seq<SpecValue>>, DbError>(e),
                            Ok(rest) => Ok(rows.deep_view().add(rest)),
                        }),
                    decreases cv.len() - i,
                {
                    let sub = match self.scan_tree(column_count, children[i] as u64, fuel - 1) {
                        Err(e) => {
                            return Err(e);
                        },
                        Ok(s) => s,
                    };
                    let ghost old_rows = rows.deep_view();
                    let ghost sub_view = sub.deep_view();
                    let mut sub_mut = sub;
                    rows.append(&mut sub_mut);
                    proof {
                        assert(rows.deep_view() =~~= old_rows.add(sub_view));
                        if spec_scan_children(
                            self@,
                            column_count as nat,
                            cv,
                            (fuel - 1) as nat,
                            i + 1,
                        ) is Ok {
                            let rest = spec_scan_children(
                                self@,
                                column_count as nat,
                                cv,
                                (fuel - 1) as nat,
                                i + 1,
                            ).unwrap();
                            assert(old_rows.add(sub_view.add(rest)) =~= rows.deep_view().add(
                                rest,
                            ));
                        }
                    }
                    i = i + 1;
                }
                proof {
                    assert(rows.deep_view().add(Seq::<Seq<SpecValue>>::empty()) =~= rows.deep_view(
                    ));
                }
                Ok(rows)
            },
            _ => Err(DbError::NotATable),
        }
    }
}

/// Returns whether `k` is among `keys`.
fn keys_contain(keys: &Vec<u64>, k: u64) -> (r: bool)
    ensures
        r == keys@.contains(k),
{
    let mut i: usize = 0;
    while i < keys.len()
        invariant
            i <= keys@.len(),
            forall|m: int| 0 <= m < i ==> keys@[m] != k,
        decreases keys@.len() - i,
    {
        if keys[i] == k {
            return true;
        }
        i = i + 1;
    }
    false
}

/// Returns the child index rowid `k` belongs under.
fn child_of(cells: &Vec<TableInteriorCell>, k: u64) -> (r: usize)
    ensures
        r == spec_child_index(cells@, k, 0),
        r <= cells@.len(),
{
    let mut i: usize = 0;
    while i < cells.len()
        invariant
            i <= cells@.len(),
            spec_child_index(cells@, k, 0) == spec_child_index(cells@, k, i as int),
        decreases cells@.len() - i,
    {
        if k <= cells[i].key {
            return i;
        }
        i = i + 1;
    }
    cells.len()
}

/// Collects the keys that belong under child `j`, in order.
fn key_group(keys: &Vec<u64>, cells: &Vec<TableInteriorCell>, j: usize) -> (r: Vec<u64>)
    ensures
        r@ == spec_key_group(keys@, cells@, j as int, 0),
{
    let mut out: Vec<u64> = Vec::new();
    let mut i: usize = 0;
    proof {
        if spec_key_group(keys@, cells@, j as int, 0).len() >= 0 {
            assert(Seq::<u64>::empty().add(spec_key_group(keys@, cells@, j as int, 0)) =~=
                spec_key_group(keys@, cells@, j as int, 0));
        }
    }
    while i < keys.len()
        invariant
            i <= keys@.len(),
            spec_key_group(keys@, cells@, j as int, 0) == out@.add(
                spec_key_group(keys@, cells@, j as int, i as int),
            ),
        decreases keys@.len() - i,
    {
        let c = child_of(cells, keys[i]);
        if c == j {
            let ghost old_out = out@;
            out.push(keys[i]);
            proof {
                let rest = spec_key_group(keys@, cells@, j as int, i + 1);
                assert(old_out.add(seq![keys@[i as int]].add(rest)) =~= out@.add(rest));
            }
        }
        i = i + 1;
    }
    proof {
        assert(out@.add(Seq::<u64>::empty()) =~= out@);
    }
    out
}

impl DB {
    /// Fetches from the table tree rooted at `page_no` the rows whose
    /// rowids are among `keys`.
    fn lookup_tree(
        &self,
        column_count: usize,
        page_no: u64,
        keys: &Vec<u64>,
        fuel: u64,
    ) -> (r: Result<Vec<Vec<Value>>, DbError>)
        requires
            self.wf(),
        ensures
            match r {
                Ok(rows) => spec_lookup(self@, column_count as nat, page_no, keys@, fuel as nat)
                    == Ok::<Seq<Seq<SpecValue>>, DbError>(rows.deep_view()),
                Err(e) => spec_lookup(self@, column_count as nat, page_no, keys@, fuel as nat)
                    == Err::<Seq<Seq<SpecValue>>, DbError>(e),
            },
        decreases fuel,
    {
        if fuel == 0 {
            return Err(DbError::Malformed);
        }
        let (off, h, page) = match self.read_page(page_no) {
            Err(e) => {
                return Err(e);
            },
            Ok(p) => p,
        };
        match h.page_type {
            BTreePage::LeafTable => {
                let all = match parse_table_leaf(page.as_slice(), off, &h, column_count) {
                    Err(e) => {
                        return Err(e);
                    },
                    Ok(rows) => rows,
                };
                let ghost av = all.deep_view();
                let mut rows: Vec<Vec<Value>> = Vec::new();
                let mut i: usize = 0;
                proof {
                    if spec_filter_keyed(av, keys@, 0) is Ok {
                        assert(Seq::<Seq<SpecValue>>::empty().add(
                            spec_filter_keyed(av, keys@, 0).unwrap(),
                        ) =~= spec_filter_keyed(av, keys@, 0).unwrap());
                    }
                }
                while i < all.len()
                    invariant
                        i <= av.len(),
                        av == all.deep_view(),
                        spec_lookup(self@, column_count as nat, page_no, keys@, fuel as nat)
                            == (match spec_filter_keyed(av, keys@, i as int) {
                            Err(e) => Err::<Seq<Seq<SpecValue>>, DbError>(e),
                            Ok(rest) => Ok(rows.deep_view().add(rest)),
                        }),
                    decreases av.len() - i,
                {
                    if all[i].len() == 0 {
                        return Err(DbError::Malformed);
                    }
                    let rid = match all[i][0].rowid_value() {
                        None => {
                            return Err(DbError::Malformed);
                        },
                        Some(rid) => rid,
                    };
                    proof {
                        assert(av[i as int] == all@[i as int].deep_view());
                        assert(av[i as int][0] == all@[i as int]@[0]@);
                    }
                    if keys_contain(keys, rid) {
                        let cr = crate::record::clone_row(&all[i]);
                        let ghost old_rows = rows.deep_view();
                        let ghost cr_view = cr.deep_view();
                        rows.push(cr);
                        proof {
                            assert(rows.deep_view() =~~= old_rows.push(cr_view));
                            if spec_filter_keyed(av, keys@, i + 1) is Ok {
                                let rest = spec_filter_keyed(av, keys@, i + 1).unwrap();
                                assert(old_rows.add(seq![av[i as int]].add(rest))
                                    =~= rows.deep_view().add(rest));
                            }
                        }
                    }
                    i = i + 1;
                }
                proof {
                    assert(rows.deep_view().add(Seq::<Seq<SpecValue>>::empty())
                        =~= rows.deep_view());
                }
                Ok(rows)
            },
            BTreePage::InteriorTable => {
                let tree = match parse_table_interior(page.as_slice(), off, &h) {
                    Err(e) => {
                        return Err(e);
                    },
                    Ok(t) => t,
                };
                let ghost cellsv = tree.left@;
                let mut rows: Vec<Vec<Value>> = Vec::new();
                let mut j: usize = 0;
                proof {
                    if spec_lookup_children(
                        self@,
                        column_count as nat,
                        cellsv,
                        tree.right,
                        keys@,
                        (fuel - 1) as nat,
                        0,
                    ) is Ok {
                        let rest = spec_lookup_children(
                            self@,
                            column_count as nat,
                            cellsv,
                            tree.right,
                            keys@,
                            (fuel - 1) as nat,
                            0,
                        ).unwrap();
                        assert(Seq::<Seq<SpecValue>>::empty().add(rest) =~= rest);
                    }
                }
                while j < tree.left.len()
                    invariant
                        self.wf(),
                        j <= cellsv.len(),
                        cellsv == tree.left@,
                        fuel >= 1,
                        spec_lookup(self@, column_count as nat, page_no, keys@, fuel as nat)
                            == (match spec_lookup_children(
                            self@,
                            column_count as nat,
                            cellsv,
                            tree.right,
                            keys@,
                            (fuel - 1) as nat,
                            j as int,
                        ) {
                            Err(e) => Err::<Seq<Seq<SpecValue>>, DbError>(e),
                            Ok(rest) => Ok(rows.deep_view().add(rest)),
                        }),
                    decreases cellsv.len() - j,
                {
                    let child: u32 = tree.left[j].left_child_page;
                    let group = key_group(keys, &tree.left, j);
                    if group.len() > 0 {
                        let sub = match self.lookup_tree(
                            column_count,
                            child as u64,
                            &group,
                            fuel - 1,
                        ) {
                            Err(e) => {
                                return Err(e);
                            },
                            Ok(s) => s,
                        };
                        let ghost old_rows = rows.deep_view();
                        let ghost sub_view = sub.deep_view();
                        let mut sub_mut = sub;
                        rows.append(&mut sub_mut);
                        proof {
                            assert(rows.deep_view() =~~= old_rows.add(sub_view));
                            if spec_lookup_children(
                                self@,
                                column_count as nat,
                                cellsv,
                                tree.right,
                                keys@,
                                (fuel - 1) as nat,
                                j + 1,
                            ) is Ok {
                                let rest = spec_lookup_children(
                                    self@,
                                    column_count as nat,
                                    cellsv,
                                    tree.right,
                                    keys@,
                                    (fuel - 1) as nat,
                                    j + 1,
                                ).unwrap();
                                assert(old_rows.add(sub_view.add(rest)) =~= rows.deep_view().add(
                                    rest,
                                ));
                            }
                        }
                    }
                    j = j + 1;
                }
                proof {
                    assert(spec_lookup_children(
                        self@,
                        column_count as nat,
                        cellsv,
                        tree.right,
                        keys@,
                        (fuel - 1) as nat,
                        cellsv.len() as int + 1,
                    ) == Ok::<Seq<Seq<SpecValue>>, DbError>(Seq::empty()));
                }
                let group = key_group(keys, &tree.left, j);
                if group.len() > 0 {
                    let sub = match self.lookup_tree(
                        column_count,
                        tree.right as u64,
                        &group,
                        fuel - 1,
                    ) {
                        Err(e) => {
                            return Err(e);
                        },
                        Ok(s) => s,
                    };
                    let ghost old_rows = rows.deep_view();
                    let ghost sub_view = sub.deep_view();
                    let mut sub_mut = sub;
                    rows.append(&mut sub_mut);
                    proof {
                        assert(rows.deep_view() =~~= old_rows.add(sub_view));
                        assert(old_rows.add(sub_view.add(Seq::<Seq<SpecValue>>::empty()))
                            =~= old_rows.add(sub_view));
                    }
                }
                proof {
                    assert(rows.deep_view().add(Seq::<Seq<SpecValue>>::empty())
                        =~= rows.deep_view());
                }
                Ok(rows)
            },
            _ => Err(DbError::NotATable),
        }
    }
}

/// Returns the index of the first cell whose record's first column is at
/// least the literal, or the cell count when none is.
fn branch_of(cells: &Vec<(u32, Vec<Value>)>, value: &Literal) -> (r: usize)
    requires
        crate::numeric::literal_wf(value@),
        forall|k: int| 0 <= k < cells.deep_view().len() ==> (#[trigger] cells.deep_view()[k]).1.len()
            >= 1,
    ensures
        r == spec_branch_index(cells.deep_view(), value@, 0),
        r <= cells@.len(),
{
    let ghost cellsv = cells.deep_view();
    let mut i: usize = 0;
    while i < cells.len()
        invariant
            i <= cellsv.len(),
            cellsv == cells.deep_view(),
            crate::numeric::literal_wf(value@),
            forall|k: int| 0 <= k < cellsv.len() ==> (#[trigger] cellsv[k]).1.len() >= 1,
            spec_branch_index(cellsv, value@, 0) == spec_branch_index(cellsv, value@, i as int),
        decreases cellsv.len() - i,
    {
        proof {
            assert(cellsv[i as int] == cells@[i as int].deep_view());
            assert(cellsv[i as int].1[0] == cells@[i as int].1@[0]@);
            assert(cells@[i as int].1@.len() == cellsv[i as int].1.len());
        }
        if crate::numeric::literal_le(value, &cells[i].1[0]) {
            return i;
        }
        i = i + 1;
    }
    cells.len()
}

/// The first cell (from `i`) whose record's first column is at least the
/// searched literal, or the cell count when none is.
pub open spec fn spec_branch_index(
    cells: Seq<(u32, Seq<SpecValue>)>,
    lit: SpecLiteral,
    i: int,
) -> int
    decreases cells.len() - i,
{
    if i < 0 || i >= cells.len() {
        cells.len() as int
    } else if spec_cmp_lit_value(lit, cells[i].1[0]) == Some(CmpResult::Less)
        || spec_cmp_lit_value(lit, cells[i].1[0]) == Some(CmpResult::Equal) {
        i
    } else {
        spec_branch_index(cells, lit, i + 1)
    }
}

/// The rowids of the index-leaf records (from `i` on) whose first column
/// equals the literal.  A match whose last column has no rowid reading
/// makes the file malformed.
pub open spec fn spec_probe_leaf(
    rows: Seq<Seq<SpecValue>>,
    lit: SpecLiteral,
    cc: nat,
    i: int,
) -> Result<Seq<u64>, DbError>
    decreases rows.len() - i,
{
    if i < 0 || i >= rows.len() {
        Ok(Seq::empty())
    } else if spec_cmp_lit_value(lit, rows[i][0]) == Some(CmpResult::Equal) {
        match rows[i][cc as int].rowid() {
            None => Err(DbError::Malformed),
            Some(rid) => match spec_probe_leaf(rows, lit, cc, i + 1) {
                Err(e) => Err(e),
                Ok(rest) => Ok(seq![rid].add(rest)),
            },
        }
    } else {
        spec_probe_leaf(rows, lit, cc, i + 1)
    }
}

/// An equality search in the index tree rooted at `page_no`, whose indexed
/// tuples have `cc` columns: the rowids of the entries matching the
/// literal.  The descent picks the first interior cell whose first column
/// is at least the literal and also emits that cell's own rowid — the
/// interior cell is itself an entry — and takes the right-most child when
/// no cell qualifies.
pub open spec fn spec_probe(
    file: Seq<u8>,
    cc: nat,
    page_no: u64,
    lit: SpecLiteral,
    fuel: nat,
) -> Result<Seq<u64>, DbError>
    decreases fuel,
{
    if fuel == 0 {
        Err(DbError::Malformed)
    } else {
        match spec_read_page(file, page_no) {
            Err(e) => Err(e),
            Ok((off, h, page)) => match h.page_type {
                BTreePage::LeafIndex => match spec_index_leaf(page, h, cc + 1) {
                    None => Err(DbError::Malformed),
                    Some(rows) => spec_probe_leaf(rows, lit, cc, 0),
                },
                BTreePage::InteriorIndex => match spec_index_interior(page, h, cc) {
                    None => Err(DbError::Malformed),
                    Some((cells, right)) => {
                        let bi = spec_branch_index(cells, lit, 0);
                        if bi < cells.len() {
                            let row = cells[bi].1;
                            match row[row.len() - 1].rowid() {
                                None => Err(DbError::Malformed),
                                Some(rid) => match spec_probe(
                                    file,
                                    cc,
                                    cells[bi].0 as u64,
                                    lit,
                                    (fuel - 1) as nat,
                                ) {
                                    Err(e) => Err(e),
                                    Ok(rest) => Ok(seq![rid].add(rest)),
                                },
                            }
                        } else {
                            spec_probe(file, cc, right as u64, lit, (fuel - 1) as nat)
                        }
                    },
                },
                _ => Err(DbError::NotAnIndex),
            },
        }
    }
}

impl DB {
    /// Searches the index tree rooted at `page_number` for entries whose
    /// first column equals `value`, returning their rowids.
    fn search_in_index(
        &self,
        column_count: usize,
        page_number: u64,
        value: &Literal,
        fuel: u64,
    ) -> (r: Result<Vec<u64>, DbError>)
        requires
            self.wf(),
            crate::numeric::literal_wf(value@),
            column_count < usize::MAX,
        ensures
            match r {
                Ok(rids) => spec_probe(self@, column_count as nat, page_number, value@, fuel as nat)
                    == Ok::<Seq<u64>, DbError>(rids@),
                Err(e) => spec_probe(self@, column_count as nat, page_number, value@, fuel as nat)
                    == Err::<Seq<u64>, DbError>(e),
            },
        decreases fuel,
    {
        if fuel == 0 {
            return Err(DbError::Malformed);
        }
        let (off, h, page) = match self.read_page(page_number) {
            Err(e) => {
                return Err(e);
            },
            Ok(p) => p,
        };
        match h.page_type {
            BTreePage::LeafIndex => {
                let rows = match parse_index_leaf(page.as_slice(), &h, column_count + 1) {
                    Err(e) => {
                        return Err(e);
                    },
                    Ok(rows) => rows,
                };
                let ghost rowsv = rows.deep_view();
                proof {
                    crate::page::lemma_index_leaf_rows_len(
                        page@,
                        crate::page::spec_cell_pointers(
                            page@,
                            crate::page_header::spec_header_size(h),
                            h.number_of_cells as nat,
                        ),
                        (column_count + 1) as nat,
                        0,
                    );
                    if spec_probe_leaf(rowsv, value@, column_count as nat, 0) is Ok {
                        assert(Seq::<u64>::empty().add(
                            spec_probe_leaf(rowsv, value@, column_count as nat, 0).unwrap(),
                        ) =~= spec_probe_leaf(rowsv, value@, column_count as nat, 0).unwrap());
                    }
                    assert forall|k: int|
                        0 <= k < rows@.len() implies (#[trigger] rows@[k])@.len() == column_count
                        + 1 by {
                        assert(rowsv[k] == rows@[k].deep_view());
                        assert(rows@[k].deep_view().len() == rows@[k]@.len());
                    }
                }
                let mut out: Vec<u64> = Vec::new();
                let mut i: usize = 0;
                while i < rows.len()
                    invariant
                        i <= rowsv.len(),
                        rowsv == rows.deep_view(),
                        crate::numeric::literal_wf(value@),
                        column_count < usize::MAX,
                        forall|k: int|
                            0 <= k < rowsv.len() ==> (#[trigger] rowsv[k]).len() == column_count
                                + 1,
                        forall|k: int|
                            0 <= k < rows@.len() ==> (#[trigger] rows@[k])@.len() == column_count
                                + 1,
                        spec_probe(self@, column_count as nat, page_number, value@, fuel as nat)
                            == (match spec_probe_leaf(rowsv, value@, column_count as nat, i as int) {
                            Err(e) => Err::<Seq<u64>, DbError>(e),
                            Ok(rest) => Ok(out@.add(rest)),
                        }),
                    decreases rowsv.len() - i,
                {
                    proof {
                        assert(rowsv[i as int] == rows@[i as int].deep_view());
                        assert(rowsv[i as int][0] == rows@[i as int]@[0]@);
                        assert(rowsv[i as int][column_count as int]
                            == rows@[i as int]@[column_count as int]@);
                    }
                    if crate::numeric::literal_matches(value, &rows[i][0]) {
                        let rid = match rows[i][column_count].rowid_value() {
                            None => {
                                return Err(DbError::Malformed);
                            },
                            Some(rid) => rid,
                        };
                        let ghost old_out = out@;
                        out.push(rid);
                        proof {
                            if spec_probe_leaf(rowsv, value@, column_count as nat, i + 1) is Ok {
                                let rest = spec_probe_leaf(
                                    rowsv,
                                    value@,
                                    column_count as nat,
                                    i + 1,
                                ).unwrap();
                                assert(old_out.add(seq![rid].add(rest)) =~= out@.add(rest));
                            }
                        }
                    }
                    i = i + 1;
                }
                proof {
                    assert(out@.add(Seq::<u64>::empty()) =~= out@);
                }
                Ok(out)
            },
            BTreePage::InteriorIndex => {
                let tree = match parse_index_interior(page.as_slice(), &h, column_count) {
                    Err(e) => {
                        return Err(e);
                    },
                    Ok(t) => t,
                };
                let ghost cellsv = tree.left.deep_view();
                proof {
                    crate::page::lemma_index_interior_cells_len(
                        page@,
                        crate::page::spec_cell_pointers(
                            page@,
                            crate::page_header::spec_header_size(h),
                            h.number_of_cells as nat,
                        ),
                        (column_count + 1) as nat,
                        0,
                    );
                }
                proof {
                    assert forall|k: int| 0 <= k < cellsv.len() implies (#[trigger] cellsv[k]).1.len()
                        == column_count + 1 by {
                        assert(cellsv[k] == tree.left@[k].deep_view());
                    }
                }
                let bi = branch_of(&tree.left, value);
                if bi < tree.left.len() {
                    proof {
                        assert(cellsv[bi as int] == tree.left@[bi as int].deep_view());
                        assert(cellsv[bi as int].1[column_count as int]
                            == tree.left@[bi as int].1@[column_count as int]@);
                        assert(cellsv[bi as int].1.len() - 1 == column_count as int);
                    }
                    let rid = match tree.left[bi].1[column_count].rowid_value() {
                        None => {
                            return Err(DbError::Malformed);
                        },
                        Some(rid) => rid,
                    };
                    let child = tree.left[bi].0;
                    let rest = match self.search_in_index(
                        column_count,
                        child as u64,
                        value,
                        fuel - 1,
                    ) {
                        Err(e) => {
                            return Err(e);
                        },
                        Ok(rest) => rest,
                    };
                    let ghost rest_view = rest@;
                    let mut out: Vec<u64> = Vec::new();
                    out.push(rid);
                    let mut rest_mut = rest;
                    out.append(&mut rest_mut);
                    proof {
                        assert(out@ =~= seq![rid].add(rest_view));
                    }
                    Ok(out)
                } else {
                    self.search_in_index(column_count, tree.right as u64, value, fuel - 1)
                }
            },
            _ => Err(DbError::NotAnIndex),
        }
    }
}

/// Every row of a successful scan has exactly `cc` columns.
pub proof fn lemma_scan_rows_len(file: Seq<u8>, cc: nat, page_no: u64, fuel: nat)
    requires
        spec_scan(file, cc, page_no, fuel) is Ok,
    ensures
        forall|k: int|
            0 <= k < spec_scan(file, cc, page_no, fuel).unwrap().len() ==> (
            #[trigger] spec_scan(file, cc, page_no, fuel).unwrap()[k]).len() == cc,
    decreases fuel, 0int, 0int,
{
    let (off, h, page) = spec_read_page(file, page_no).unwrap();
    match h.page_type {
        BTreePage::LeafTable => {
            crate::page::lemma_leaf_rows_len(
                page,
                crate::page::spec_cell_pointers(
                    page,
                    off + crate::page_header::spec_header_size(h),
                    h.number_of_cells as nat,
                ),
                cc,
                0,
            );
        },
        BTreePage::InteriorTable => {
            let (cells, right) = spec_table_interior(page, off, h).unwrap();
            lemma_scan_children_rows_len(file, cc, spec_pages(cells, right), (fuel - 1) as nat, 0);
        },
        _ => {},
    }
}

/// Every row of a successful children scan has exactly `cc` columns.
pub proof fn lemma_scan_children_rows_len(
    file: Seq<u8>,
    cc: nat,
    children: Seq<u32>,
    fuel: nat,
    i: int,
)
    requires
        spec_scan_children(file, cc, children, fuel, i) is Ok,
    ensures
        forall|k: int|
            0 <= k < spec_scan_children(file, cc, children, fuel, i).unwrap().len() ==> (
            #[trigger] spec_scan_children(file, cc, children, fuel, i).unwrap()[k]).len() == cc,
    decreases fuel, 1int, children.len() - i,
{
    if i < 0 || i >= children.len() {
    } else {
        lemma_scan_rows_len(file, cc, children[i] as u64, fuel);
        lemma_scan_children_rows_len(file, cc, children, fuel, i + 1);
        let rows = spec_scan(file, cc, children[i] as u64, fuel).unwrap();
        let rest = spec_scan_children(file, cc, children, fuel, i + 1).unwrap();
        let whole = spec_scan_children(file, cc, children, fuel, i).unwrap();
        assert forall|k: int| 0 <= k < whole.len() implies (#[trigger] whole[k]).len() == cc by {
            if k < rows.len() {
                assert(whole[k] == rows[k]);
            } else {
                assert(whole[k] == rest[k - rows.len()]);
            }
        }
    }
}

/// Every row kept by the keyed filter is one of the filtered rows.
pub proof fn lemma_filter_keyed_rows_len(rows: Seq<Seq<SpecValue>>, keys: Seq<u64>, i: int, cc: nat)
    requires
        spec_filter_keyed(rows, keys, i) is Ok,
        forall|k: int| 0 <= k < rows.len() ==> (#[trigger] rows[k]).len() == cc,
    ensures
        forall|k: int|
            0 <= k < spec_filter_keyed(rows, keys, i).unwrap().len() ==> (
            #[trigger] spec_filter_keyed(rows, keys, i).unwrap()[k]).len() == cc,
    decreases rows.len() - i,
{
    if i < 0 || i >= rows.len() {
    } else {
        lemma_filter_keyed_rows_len(rows, keys, i + 1, cc);
        let rest = spec_filter_keyed(rows, keys, i + 1).unwrap();
        let whole = spec_filter_keyed(rows, keys, i).unwrap();
        assert forall|k: int| 0 <= k < whole.len() implies (#[trigger] whole[k]).len() == cc by {
            if whole != rest && k == 0 {
                assert(whole[0] == rows[i]);
            } else if whole != rest {
                assert(whole[k] == rest[k - 1]);
            }
        }
    }
}

/// Every row of a successful point lookup has exactly `cc` columns.
pub proof fn lemma_lookup_rows_len(file: Seq<u8>, cc: nat, page_no: u64, keys: Seq<u64>, fuel: nat)
    requires
        spec_lookup(file, cc, page_no, keys, fuel) is Ok,
    ensures
        forall|k: int|
            0 <= k < spec_lookup(file, cc, page_no, keys, fuel).unwrap().len() ==> (
            #[trigger] spec_lookup(file, cc, page_no, keys, fuel).unwrap()[k]).len() == cc,
    decreases fuel, 0int, 0int,
{
    let (off, h, page) = spec_read_page(file, page_no).unwrap();
    match h.page_type {
        BTreePage::LeafTable => {
            crate::page::lemma_leaf_rows_len(
                page,
                crate::page::spec_cell_pointers(
                    page,
                    off + crate::page_header::spec_header_size(h),
                    h.number_of_cells as nat,
                ),
                cc,
                0,
            );
            let rows = spec_table_leaf_rows(page, off, h, cc).unwrap();
            lemma_filter_keyed_rows_len(rows, keys, 0, cc);
        },
        BTreePage::InteriorTable => {
            let (cells, right) = spec_table_interior(page, off, h).unwrap();
            lemma_lookup_children_rows_len(file, cc, cells, right, keys, (fuel - 1) as nat, 0);
        },
        _ => {},
    }
}

/// Every row of a successful children lookup has exactly `cc` columns.
pub proof fn lemma_lookup_children_rows_len(
    file: Seq<u8>,
    cc: nat,
    cells: Seq<TableInteriorCell>,
    right: u32,
    keys: Seq<u64>,
    fuel: nat,
    j: int,
)
    requires
        spec_lookup_children(file, cc, cells, right, keys, fuel, j) is Ok,
    ensures
        forall|k: int|
            0 <= k < spec_lookup_children(file, cc, cells, right, keys, fuel, j).unwrap().len()
                ==> (#[trigger] spec_lookup_children(
                file,
                cc,
                cells,
                right,
                keys,
                fuel,
                j,
            ).unwrap()[k]).len() == cc,
    decreases fuel, 1int, cells.len() + 1 - j,
{
    if j < 0 || j > cells.len() {
    } else {
        let child = if j < cells.len() {
            cells[j].left_child_page
        } else {
            right
        };
        let group = spec_key_group(keys, cells, j, 0);
        lemma_lookup_children_rows_len(file, cc, cells, right, keys, fuel, j + 1);
        if group.len() == 0 {
        } else {
            lemma_lookup_rows_len(file, cc, child as u64, group, fuel);
            let rows = spec_lookup(file, cc, child as u64, group, fuel).unwrap();
            let rest = spec_lookup_children(file, cc, cells, right, keys, fuel, j + 1).unwrap();
            let whole = spec_lookup_children(file, cc, cells, right, keys, fuel, j).unwrap();
            assert forall|k: int| 0 <= k < whole.len() implies (#[trigger] whole[k]).len()
                == cc by {
                if k < rows.len() {
                    assert(whole[k] == rows[k]);
                } else {
                    assert(whole[k] == rest[k - rows.len()]);
                }
            }
        }
    }
}

/// Returns whether two byte vectors hold the same bytes.
pub fn bytes_eq(a: &Vec<u8>, b: &Vec<u8>) -> (r: bool)
    ensures
        r == (a@ == b@),
{
    if a.len() != b.len() {
        return false;
    }
    let mut i: usize = 0;
    while i < a.len()
        invariant
            i <= a@.len(),
            a@.len() == b@.len(),
            forall|k: int| 0 <= k < i ==> a@[k] == b@[k],
        decreases a@.len() - i,
    {
        if a[i] != b[i] {
            return false;
        }
        i = i + 1;
    }
    proof {
        assert(a@ =~= b@);
    }
    true
}

/// `"table"`, the schema kind of a table row.
pub open spec fn kw_table() -> Seq<u8> {
    seq![116u8, 97u8, 98u8, 108u8, 101u8]
}

fn kw_table_v() -> (r: Vec<u8>)
    ensures
        r@ == kw_table(),
{
    let v: Vec<u8> = vec![116u8, 97u8, 98u8, 108u8, 101u8];
    proof {
        assert(v@ =~= kw_table());
    }
    v
}

/// `"index"`, the schema kind of an index row.
pub open spec fn kw_index() -> Seq<u8> {
    seq![105u8, 110u8, 100u8, 101u8, 120u8]
}

fn kw_index_v() -> (r: Vec<u8>)
    ensures
        r@ == kw_index(),
{
    let v: Vec<u8> = vec![105u8, 110u8, 100u8, 101u8, 120u8];
    proof {
        assert(v@ =~= kw_index());
    }
    v
}

/// `"sqlite_sequence"`, the internal table left out of table listings.
pub open spec fn kw_sqlite_sequence() -> Seq<u8> {
    seq![
        115u8, 113u8, 108u8, 105u8, 116u8, 101u8, 95u8, 115u8, 101u8, 113u8, 117u8, 101u8, 110u8,
        99u8, 101u8,
    ]
}

fn kw_sqlite_sequence_v() -> (r: Vec<u8>)
    ensures
        r@ == kw_sqlite_sequence(),
{
    let v: Vec<u8> = vec![
        115u8, 113u8, 108u8, 105u8, 116u8, 101u8, 95u8, 115u8, 101u8, 113u8, 117u8, 101u8, 110u8,
        99u8, 101u8,
    ];
    proof {
        assert(v@ =~= kw_sqlite_sequence());
    }
    v
}

/// The schema rows parsed from the scan rows from index `i` on.
pub open spec fn spec_schemas_from(rows: Seq<Seq<SpecValue>>, i: int) -> Result<
    Seq<SpecSchema>,
    DbError,
>
    decreases rows.len() - i,
{
    if i < 0 || i >= rows.len() {
        Ok(Seq::empty())
    } else {
        match spec_schema_of_row(rows[i]) {
            Err(e) => Err(e),
            Ok(s) => match spec_schemas_from(rows, i + 1) {
                Err(e) => Err(e),
                Ok(rest) => Ok(seq![s].add(rest)),
            },
        }
    }
}

/// The schema catalog: the root table on page one scanned as five-column
/// rows, each parsed as a schema row.
pub open spec fn spec_schemas(file: Seq<u8>) -> Result<Seq<SpecSchema>, DbError> {
    match spec_scan(file, 5, 1, spec_fuel(file)) {
        Err(e) => Err(e),
        Ok(rows) => spec_schemas_from(rows, 0),
    }
}

/// The names of the user tables among the schema rows from `i` on: rows
/// of kind `table` except the internal sequence table.
pub open spec fn spec_tables_from(ss: Seq<SpecSchema>, i: int) -> Seq<Seq<u8>>
    decreases ss.len() - i,
{
    if i < 0 || i >= ss.len() {
        Seq::empty()
    } else {
        let rest = spec_tables_from(ss, i + 1);
        if ss[i].kind == kw_table() && ss[i].table_name != kw_sqlite_sequence() {
            seq![ss[i].table_name].add(rest)
        } else {
            rest
        }
    }
}

/// The user-table names of the database, in catalog order.
pub open spec fn spec_tables(file: Seq<u8>) -> Result<Seq<Seq<u8>>, DbError> {
    match spec_schemas(file) {
        Err(e) => Err(e),
        Ok(ss) => Ok(spec_tables_from(ss, 0)),
    }
}

/// The first schema row (from `i`) named `name`.
pub open spec fn spec_find_named(ss: Seq<SpecSchema>, name: Seq<u8>, i: int) -> Option<int>
    decreases ss.len() - i,
{
    if i < 0 || i >= ss.len() {
        None
    } else if ss[i].name == name {
        Some(i)
    } else {
        spec_find_named(ss, name, i + 1)
    }
}

/// The row count answered for `SELECT COUNT(*)`: the cell count of the
/// named table's root page.  For a table whose root is an interior page
/// this counts that page's cells only.
pub open spec fn spec_count(file: Seq<u8>, table: Seq<u8>) -> Result<u16, DbError> {
    match spec_schemas(file) {
        Err(e) => Err(e),
        Ok(ss) => match spec_find_named(ss, table, 0) {
            None => Err(DbError::TableNotFound),
            Some(ti) => match spec_read_page(file, ss[ti].root_page) {
                Err(e) => Err(e),
                Ok((off, h, page)) => Ok(h.number_of_cells),
            },
        },
    }
}

/// The first schema row (from `i`) that is an index on `table` whose
/// first indexed column is `col`.
pub open spec fn spec_find_index(ss: Seq<SpecSchema>, table: Seq<u8>, col: Seq<u8>, i: int) -> Option<
    int,
>
    decreases ss.len() - i,
{
    if i < 0 || i >= ss.len() {
        None
    } else if ss[i].kind == kw_index() && ss[i].table_name == table && (match ss[i].sql {
        Some(crate::sql::SpecCreateStatement::CreateIndex { name, table: t, columns }) => columns.len()
            > 0 && columns[0] == col,
        _ => false,
    }) {
        Some(i)
    } else {
        spec_find_index(ss, table, col, i + 1)
    }
}

/// The position of the last column named `name` among the first `i`
/// columns.
pub open spec fn spec_col_pos(cols: Seq<Seq<u8>>, name: Seq<u8>, i: int) -> Option<int>
    decreases i,
{
    if i <= 0 || i > cols.len() {
        None
    } else if cols[i - 1] == name {
        Some(i - 1)
    } else {
        spec_col_pos(cols, name, i - 1)
    }
}

/// The table-column positions of the selected column names from `i` on;
/// a name matching no column is an error.
pub open spec fn spec_selected_indices(
    sel_cols: Seq<Seq<u8>>,
    cols: Seq<Seq<u8>>,
    i: int,
) -> Result<Seq<int>, DbError>
    decreases sel_cols.len() - i,
{
    if i < 0 || i >= sel_cols.len() {
        Ok(Seq::empty())
    } else {
        match spec_col_pos(cols, sel_cols[i], cols.len() as int) {
            None => Err(DbError::ColumnNotFound),
            Some(p) => match spec_selected_indices(sel_cols, cols, i + 1) {
                Err(e) => Err(e),
                Ok(rest) => Ok(seq![p].add(rest)),
            },
        }
    }
}

/// The rows from `i` on whose column `fi` equals the literal.
pub open spec fn spec_filter_rows_lit(
    rows: Seq<Seq<SpecValue>>,
    fi: int,
    lit: SpecLiteral,
    i: int,
) -> Seq<Seq<SpecValue>>
    decreases rows.len() - i,
{
    if i < 0 || i >= rows.len() {
        Seq::empty()
    } else {
        let rest = spec_filter_rows_lit(rows, fi, lit, i + 1);
        if spec_cmp_lit_value(lit, rows[i][fi]) == Some(CmpResult::Equal) {
            seq![rows[i]].add(rest)
        } else {
            rest
        }
    }
}

/// The rows from `i` on, each cut down to the columns at the given
/// positions, in their order.
pub open spec fn spec_project(rows: Seq<Seq<SpecValue>>, idx: Seq<int>, i: int) -> Seq<
    Seq<SpecValue>,
>
    decreases rows.len() - i,
{
    if i < 0 || i >= rows.len() {
        Seq::empty()
    } else {
        seq![Seq::new(idx.len(), |j: int| rows[i][idx[j]])].add(
            spec_project(rows, idx, i + 1),
        )
    }
}

/// The result of a `SELECT`: the planner resolves the table and columns,
/// uses an index probe plus point lookup when the filter column leads an
/// index on the table, filters a full scan when it does not, and plain
/// scans without a filter; finally each row is cut to the selected
/// columns.
pub open spec fn spec_select(file: Seq<u8>, sel: SpecSelect) -> Result<
    Seq<Seq<SpecValue>>,
    DbError,
> {
    match spec_schemas(file) {
        Err(e) => Err(e),
        Ok(ss) => {
            let found = match sel.filter {
                Some((c, _)) => spec_find_index(ss, sel.table, c, 0),
                None => None,
            };
            match spec_find_named(ss, sel.table, 0) {
                None => Err(DbError::TableNotFound),
                Some(ti) => match ss[ti].spec_columns() {
                    Err(e) => Err(e),
                    Ok(cols) => match spec_selected_indices(sel.columns, cols, 0) {
                        Err(e) => Err(e),
                        Ok(sel_idx) => if sel_idx.len() == 0 {
                            Err(DbError::ColumnNotFound)
                        } else {
                            let rows_r = match (sel.filter, found) {
                                (None, _) => spec_scan(
                                    file,
                                    cols.len(),
                                    ss[ti].root_page,
                                    spec_fuel(file),
                                ),
                                (Some((c, lit)), Some(ii)) => {
                                    let icols = match ss[ii].sql {
                                        Some(
                                            crate::sql::SpecCreateStatement::CreateIndex {
                                                name,
                                                table: t,
                                                columns,
                                            },
                                        ) => columns,
                                        _ => Seq::empty(),
                                    };
                                    if icols.len() >= usize::MAX {
                                        Err(DbError::Malformed)
                                    } else {
                                        match spec_probe(
                                            file,
                                            icols.len(),
                                            ss[ii].root_page,
                                            lit,
                                            spec_fuel(file),
                                        ) {
                                            Err(e) => Err(e),
                                            Ok(keys) => spec_lookup(
                                                file,
                                                cols.len(),
                                                ss[ti].root_page,
                                                keys,
                                                spec_fuel(file),
                                            ),
                                        }
                                    }
                                },
                                (Some((c, lit)), None) => match spec_col_pos(
                                    cols,
                                    c,
                                    cols.len() as int,
                                ) {
                                    None => Err(DbError::ColumnNotFound),
                                    Some(fi) => match spec_scan(
                                        file,
                                        cols.len(),
                                        ss[ti].root_page,
                                        spec_fuel(file),
                                    ) {
                                        Err(e) => Err(e),
                                        Ok(rows) => Ok(spec_filter_rows_lit(rows, fi, lit, 0)),
                                    },
                                },
                            };
                            match rows_r {
                                Err(e) => Err(e),
                                Ok(rows) => Ok(spec_project(rows, sel_idx, 0)),
                            }
                        },
                    },
                },
            }
        },
    }
}

/// Returns whether a byte vector holds the same bytes as a slice.
fn bytes_eq_slice(a: &Vec<u8>, b: &[u8]) -> (r: bool)
    ensures
        r == (a@ == b@),
{
    let blen: usize = b.len();
    if a.len() != blen {
        return false;
    }
    let mut i: usize = 0;
    while i < a.len()
        invariant
            i <= a@.len(),
            a@.len() == b@.len(),
            forall|k: int| 0 <= k < i ==> a@[k] == b@[k],
        decreases a@.len() - i,
    {
        if a[i] != b[i] {
            return false;
        }
        i = i + 1;
    }
    proof {
        assert(a@ =~= b@);
    }
    true
}

impl DB {
    /// Computes the traversal fuel for this file.
    fn fuel_of(&self) -> (r: u64)
        requires
            self.wf(),
        ensures
            r == spec_fuel(self@),
    {
        let ps: usize = self.header.page_size;
        let dlen: usize = self.data.len();
        if ps == 0 {
            1
        } else {
            let q: u128 = (dlen as u128) / (ps as u128);
            if q + 1 > 0xFFFF_FFFF_FFFF_FFFF {
                0xFFFF_FFFF_FFFF_FFFF
            } else {
                (q + 1) as u64
            }
        }
    }

    /// Reads and parses every row of the schema table on page one.
    pub fn get_schemas(&self) -> (r: Result<Vec<Schema>, DbError>)
        requires
            self.wf(),
        ensures
            match r {
                Ok(ss) => spec_schemas(self@) == Ok::<Seq<SpecSchema>, DbError>(ss.deep_view()),
                Err(e) => spec_schemas(self@) == Err::<Seq<SpecSchema>, DbError>(e),
            },
    {
        let fuel = self.fuel_of();
        let rows = match self.scan_tree(5, 1, fuel) {
            Err(e) => {
                return Err(e);
            },
            Ok(rows) => rows,
        };
        let ghost rowsv = rows.deep_view();
        let mut out: Vec<Schema> = Vec::new();
        let mut i: usize = 0;
        proof {
            if spec_schemas_from(rowsv, 0) is Ok {
                assert(Seq::<SpecSchema>::empty().add(spec_schemas_from(rowsv, 0).unwrap())
                    =~= spec_schemas_from(rowsv, 0).unwrap());
            }
        }
        while i < rows.len()
            invariant
                i <= rowsv.len(),
                rowsv == rows.deep_view(),
                spec_schemas(self@) == (match spec_schemas_from(rowsv, i as int) {
                    Err(e) => Err::<Seq<SpecSchema>, DbError>(e),
                    Ok(rest) => Ok(out.deep_view().add(rest)),
                }),
            decreases rowsv.len() - i,
        {
            let record = crate::record::clone_row(&rows[i]);
            proof {
                assert(record.deep_view() == rowsv[i as int]);
            }
            let s = match Schema::parse(record) {
                Err(e) => {
                    return Err(e);
                },
                Ok(s) => s,
            };
            let ghost old_out = out.deep_view();
            let ghost s_view = s.deep_view();
            out.push(s);
            proof {
                assert(out.deep_view() =~~= old_out.push(s_view));
                if spec_schemas_from(rowsv, i + 1) is Ok {
                    let rest = spec_schemas_from(rowsv, i + 1).unwrap();
                    assert(old_out.add(seq![s_view].add(rest)) =~= out.deep_view().add(rest));
                }
            }
            i = i + 1;
        }
        proof {
            assert(out.deep_view().add(Seq::<SpecSchema>::empty()) =~= out.deep_view());
        }
        Ok(out)
    }

    /// Lists the user tables: the table names of schema rows of kind
    /// `table`, except the internal sequence table, in catalog order.
    pub fn tables(&self) -> (r: Result<Vec<Vec<u8>>, DbError>)
        requires
            self.wf(),
        ensures
            match r {
                Ok(names) => spec_tables(self@) == Ok::<Seq<Seq<u8>>, DbError>(names.deep_view()),
                Err(e) => spec_tables(self@) == Err::<Seq<Seq<u8>>, DbError>(e),
            },
    {
        let ss = match self.get_schemas() {
            Err(e) => {
                return Err(e);
            },
            Ok(ss) => ss,
        };
        let ghost ssv = ss.deep_view();
        let kw_t = kw_table_v();
        let kw_s = kw_sqlite_sequence_v();
        let mut out: Vec<Vec<u8>> = Vec::new();
        let mut i: usize = 0;
        proof {
            assert(Seq::<Seq<u8>>::empty().add(spec_tables_from(ssv, 0)) =~= spec_tables_from(
                ssv,
                0,
            ));
        }
        while i < ss.len()
            invariant
                i <= ssv.len(),
                ssv == ss.deep_view(),
                kw_t@ == kw_table(),
                kw_s@ == kw_sqlite_sequence(),
                spec_tables_from(ssv, 0) == out.deep_view().add(
                    spec_tables_from(ssv, i as int),
                ),
            decreases ssv.len() - i,
        {
            proof {
                assert(ssv[i as int] == ss@[i as int].deep_view());
            }
            if bytes_eq(&ss[i].kind, &kw_t) && !bytes_eq(&ss[i].table_name, &kw_s) {
                let nm = crate::schema::clone_bytes(&ss[i].table_name);
                let ghost old_out = out.deep_view();
                let ghost nm_view = nm@;
                out.push(nm);
                proof {
                    assert(out.deep_view() =~~= old_out.push(nm_view));
                    let rest = spec_tables_from(ssv, i + 1);
                    assert(old_out.add(seq![nm_view].add(rest)) =~= out.deep_view().add(rest));
                }
            }
            i = i + 1;
        }
        proof {
            assert(out.deep_view().add(Seq::<Seq<u8>>::empty()) =~= out.deep_view());
        }
        Ok(out)
    }

    /// Answers `SELECT COUNT(*)` for the named table from its root page's
    /// cell count alone; a root that is an interior page is not recursed
    /// into, so only its own cells are counted.
    pub fn count(&self, table: &[u8]) -> (r: Result<usize, DbError>)
        requires
            self.wf(),
        ensures
            match r {
                Ok(c) => spec_count(self@, table@) matches Ok(sc) && c == sc as usize,
                Err(e) => spec_count(self@, table@) == Err::<u16, DbError>(e),
            },
    {
        let ss = match self.get_schemas() {
            Err(e) => {
                return Err(e);
            },
            Ok(ss) => ss,
        };
        let ghost ssv = ss.deep_view();
        let mut i: usize = 0;
        while i < ss.len()
            invariant
                self.wf(),
                i <= ssv.len(),
                ssv == ss.deep_view(),
                spec_schemas(self@) == Ok::<Seq<SpecSchema>, DbError>(ssv),
                spec_find_named(ssv, table@, 0) == spec_find_named(ssv, table@, i as int),
            decreases ssv.len() - i,
        {
            proof {
                assert(ssv[i as int] == ss@[i as int].deep_view());
            }
            if bytes_eq_slice(&ss[i].name, table) {
                let (_, h, _) = match self.read_page(ss[i].root_page) {
                    Err(e) => {
                        return Err(e);
                    },
                    Ok(p) => p,
                };
                return Ok(h.number_of_cells as usize);
            }
            i = i + 1;
        }
        Err(DbError::TableNotFound)
    }
}

/// A found index position satisfies the search condition: the row is an
/// index on the table and its create statement's first indexed column is
/// the filter column.
pub proof fn lemma_find_index_char(ss: Seq<SpecSchema>, table: Seq<u8>, col: Seq<u8>, i: int)
    requires
        spec_find_index(ss, table, col, i) is Some,
    ensures
        ({
            let j = spec_find_index(ss, table, col, i).unwrap();
            &&& i <= j < ss.len()
            &&& ss[j].kind == kw_index()
            &&& ss[j].table_name == table
            &&& (match ss[j].sql {
                Some(crate::sql::SpecCreateStatement::CreateIndex { name, table: t, columns }) => {
                    columns.len() > 0 && columns[0] == col
                },
                _ => false,
            })
        }),
    decreases ss.len() - i,
{
    if i < 0 || i >= ss.len() {
    } else if ss[i].kind == kw_index() && ss[i].table_name == table && (match ss[i].sql {
        Some(crate::sql::SpecCreateStatement::CreateIndex { name, table: t, columns }) => columns.len()
            > 0 && columns[0] == col,
        _ => false,
    }) {
    } else {
        lemma_find_index_char(ss, table, col, i + 1);
    }
}

/// Cuts each row down to the columns at the selected positions.
fn project_rows(rows: &Vec<Vec<Value>>, sel_idx: &Vec<usize>, Ghost(cc): Ghost<nat>) -> (r: Vec<
    Vec<Value>,
>)
    requires
        forall|k: int|
            0 <= k < rows.deep_view().len() ==> (#[trigger] rows.deep_view()[k]).len() == cc,
        forall|j: int| 0 <= j < sel_idx@.len() ==> (#[trigger] sel_idx@[j]) < cc,
    ensures
        r.deep_view() == spec_project(
            rows.deep_view(),
            Seq::new(sel_idx@.len() as nat, |j: int| sel_idx@[j] as int),
            0,
        ),
{
    let ghost rowsv = rows.deep_view();
    let ghost sel_idx_v = Seq::new(sel_idx@.len() as nat, |j: int| sel_idx@[j] as int);
    proof {
        assert forall|k: int| 0 <= k < rows@.len() implies (#[trigger] rows@[k])@.len() == cc by {
            assert(rowsv[k] == rows@[k].deep_view());
            assert(rows@[k].deep_view().len() == rows@[k]@.len());
        }
        assert(Seq::<Seq<SpecValue>>::empty().add(spec_project(rowsv, sel_idx_v, 0))
            =~= spec_project(rowsv, sel_idx_v, 0));
    }
    let mut out: Vec<Vec<Value>> = Vec::new();
    let mut i: usize = 0;
    while i < rows.len()
        invariant
            i <= rowsv.len(),
            rowsv == rows.deep_view(),
            sel_idx_v == Seq::new(sel_idx@.len() as nat, |j: int| sel_idx@[j] as int),
            forall|j: int| 0 <= j < sel_idx@.len() ==> (#[trigger] sel_idx@[j]) < cc,
            forall|k: int| 0 <= k < rowsv.len() ==> (#[trigger] rowsv[k]).len() == cc,
            forall|k: int| 0 <= k < rows@.len() ==> (#[trigger] rows@[k])@.len() == cc,
            spec_project(rowsv, sel_idx_v, 0) == out.deep_view().add(
                spec_project(rowsv, sel_idx_v, i as int),
            ),
        decreases rowsv.len() - i,
    {
        let mut prow: Vec<Value> = Vec::new();
        let mut j: usize = 0;
        while j < sel_idx.len()
            invariant
                j <= sel_idx@.len(),
                i < rowsv.len(),
                rowsv == rows.deep_view(),
                sel_idx_v == Seq::new(sel_idx@.len() as nat, |m: int| sel_idx@[m] as int),
                forall|m: int| 0 <= m < sel_idx@.len() ==> (#[trigger] sel_idx@[m]) < cc,
                forall|k: int| 0 <= k < rowsv.len() ==> (#[trigger] rowsv[k]).len() == cc,
                forall|k: int| 0 <= k < rows@.len() ==> (#[trigger] rows@[k])@.len() == cc,
                prow@.len() == j,
                forall|m: int|
                    0 <= m < j ==> (#[trigger] prow@[m])@ == rowsv[i as int][sel_idx_v[m]],
            decreases sel_idx@.len() - j,
        {
            proof {
                assert(rowsv[i as int][sel_idx@[j as int] as int]
                    == rows@[i as int]@[sel_idx@[j as int] as int]@);
            }
            prow.push(crate::record::clone_value(&rows[i][sel_idx[j]]));
            j = j + 1;
        }
        let ghost old_out = out.deep_view();
        let ghost prow_view = prow.deep_view();
        out.push(prow);
        proof {
            assert(prow_view =~= Seq::new(
                sel_idx_v.len(),
                |m: int| rowsv[i as int][sel_idx_v[m]],
            ));
            assert(out.deep_view() =~~= old_out.push(prow_view));
            let rest = spec_project(rowsv, sel_idx_v, i + 1);
            assert(old_out.add(seq![prow_view].add(rest)) =~= out.deep_view().add(rest));
        }
        i = i + 1;
    }
    proof {
        assert(out.deep_view().add(Seq::<Seq<SpecValue>>::empty()) =~= out.deep_view());
    }
    out
}

/// Finds the first schema row that is an index on the selected table
/// whose first indexed column is the filter column; a select without a
/// filter matches no index.
pub fn find_applicable_index(select: &Select, schemas: &Vec<Schema>) -> (r: Option<usize>)
    ensures
        ({
            let spec_r = match select.deep_view().filter {
                Some((c, l)) => spec_find_index(
                    schemas.deep_view(),
                    select.deep_view().table,
                    c,
                    0,
                ),
                None => None,
            };
            match r {
                Some(i) => spec_r == Some(i as int) && i < schemas@.len(),
                None => spec_r is None,
            }
        }),
{
    let ghost ssv = schemas.deep_view();
    let col: &Vec<u8> = match &select.filter {
        None => {
            return None;
        },
        Some((c, _)) => c,
    };
    let kw_i = kw_index_v();
    let mut i: usize = 0;
    while i < schemas.len()
        invariant
            i <= ssv.len(),
            ssv == schemas.deep_view(),
            kw_i@ == kw_index(),
            col@ == select.deep_view().filter.unwrap().0,
            select.deep_view().filter is Some,
            spec_find_index(ssv, select.deep_view().table, col@, 0) == spec_find_index(
                ssv,
                select.deep_view().table,
                col@,
                i as int,
            ),
        decreases ssv.len() - i,
    {
        proof {
            assert(ssv[i as int] == schemas@[i as int].deep_view());
        }
        let applicable = if bytes_eq(&schemas[i].kind, &kw_i) && bytes_eq(
            &schemas[i].table_name,
            &select.table,
        ) {
            match &schemas[i].sql {
                Some(crate::sql::CreateStatement::CreateIndex { name, table, columns }) => {
                    proof {
                        assert(ssv[i as int].sql == Some(
                            crate::sql::SpecCreateStatement::CreateIndex {
                                name: name@,
                                table: table@,
                                columns: columns.deep_view(),
                            },
                        ));
                        if columns.len() > 0 {
                            assert(columns.deep_view()[0] == columns@[0]@);
                        }
                    }
                    columns.len() > 0 && bytes_eq(&columns[0], col)
                },
                _ => false,
            }
        } else {
            false
        };
        if applicable {
            return Some(i);
        }
        i = i + 1;
    }
    None
}

/// Returns the position of the last column named `name`, scanning from
/// the end.
fn col_pos(cols: &Vec<Vec<u8>>, name: &Vec<u8>) -> (r: Option<usize>)
    ensures
        match r {
            Some(p) => spec_col_pos(cols.deep_view(), name@, cols.deep_view().len() as int)
                == Some(p as int) && p < cols@.len(),
            None => spec_col_pos(cols.deep_view(), name@, cols.deep_view().len() as int) is None,
        },
{
    let ghost colsv = cols.deep_view();
    let mut i: usize = cols.len();
    while i > 0
        invariant
            i <= colsv.len(),
            colsv == cols.deep_view(),
            spec_col_pos(colsv, name@, colsv.len() as int) == spec_col_pos(
                colsv,
                name@,
                i as int,
            ),
        decreases i,
    {
        proof {
            assert(colsv[i - 1] == cols@[i - 1].deep_view());
            assert(colsv[i - 1] =~= cols@[i - 1]@);
        }
        if bytes_eq(&cols[i - 1], name) {
            return Some(i - 1);
        }
        i = i - 1;
    }
    None
}

/// Maps each selected column name to the position of the last table
/// column with that name.  Fails when a name matches no column, and when
/// the selection is empty.
pub fn get_selected_column_indices(select: &Select, columns: &Vec<Vec<u8>>) -> (r: Result<
    Vec<usize>,
    DbError,
>)
    ensures
        match r {
            Ok(idx) => {
                &&& spec_selected_indices(
                    select.deep_view().columns,
                    columns.deep_view(),
                    0,
                ) matches Ok(si)
                &&& Seq::new(idx@.len() as nat, |j: int| idx@[j] as int) == si
                &&& idx@.len() > 0
                &&& forall|j: int| 0 <= j < idx@.len() ==> (#[trigger] idx@[j]) < columns@.len()
            },
            Err(e) => (spec_selected_indices(select.deep_view().columns, columns.deep_view(), 0)
                == Err::<Seq<int>, DbError>(e)) || (e == DbError::ColumnNotFound
                && (spec_selected_indices(select.deep_view().columns, columns.deep_view(), 0)
                matches Ok(si) && si.len() == 0)),
        },
{
    let ghost selv = select.deep_view().columns;
    let ghost colsv = columns.deep_view();
    let mut out: Vec<usize> = Vec::new();
    let mut i: usize = 0;
    proof {
        assert(selv == select.columns.deep_view());
    }
    while i < select.columns.len()
        invariant
            i <= selv.len(),
            selv == select.columns.deep_view(),
            colsv == columns.deep_view(),
            out@.len() == i,
            forall|j: int| 0 <= j < out@.len() ==> (#[trigger] out@[j]) < columns@.len(),
            spec_selected_indices(selv, colsv, 0) == (match spec_selected_indices(
                selv,
                colsv,
                i as int,
            ) {
                Err(e) => Err::<Seq<int>, DbError>(e),
                Ok(rest) => Ok(Seq::new(out@.len() as nat, |j: int| out@[j] as int).add(rest)),
            }),
        decreases selv.len() - i,
    {
        proof {
            assert(selv[i as int] == select.columns@[i as int]@);
        }
        let p = match col_pos(columns, &select.columns[i]) {
            None => {
                return Err(DbError::ColumnNotFound);
            },
            Some(p) => p,
        };
        let ghost old_out = out@;
        out.push(p);
        proof {
            let old_mapped = Seq::new(old_out.len() as nat, |j: int| old_out[j] as int);
            let new_mapped = Seq::new(out@.len() as nat, |j: int| out@[j] as int);
            assert(new_mapped =~= old_mapped.push(p as int));
            if spec_selected_indices(selv, colsv, i + 1) is Ok {
                let rest = spec_selected_indices(selv, colsv, i + 1).unwrap();
                assert(old_mapped.add(seq![p as int].add(rest)) =~= new_mapped.add(rest));
            }
        }
        i = i + 1;
    }
    proof {
        let mapped = Seq::new(out@.len() as nat, |j: int| out@[j] as int);
        assert(mapped.add(Seq::<int>::empty()) =~= mapped);
    }
    if out.len() == 0 {
        return Err(DbError::ColumnNotFound);
    }
    Ok(out)
}

impl DB {
    /// Executes a `SELECT`: resolves the table and columns, fetches rows
    /// by index probe and point lookup, filtered scan, or plain scan, and
    /// cuts each row down to the selected columns.
    #[verifier::rlimit(100)]
    pub fn select(&self, select: &Select) -> (r: Result<Vec<Vec<Value>>, DbError>)
        requires
            self.wf(),
            crate::sql::select_wf(select.deep_view()),
        ensures
            match r {
                Ok(rows) => spec_select(self@, select.deep_view()) == Ok::<
                    Seq<Seq<SpecValue>>,
                    DbError,
                >(rows.deep_view()),
                Err(e) => spec_select(self@, select.deep_view()) == Err::<
                    Seq<Seq<SpecValue>>,
                    DbError,
                >(e),
            },
    {
        let fuel = self.fuel_of();
        let schemas = match self.get_schemas() {
            Err(e) => {
                return Err(e);
            },
            Ok(ss) => ss,
        };
        let ghost ssv = schemas.deep_view();
        let found = find_applicable_index(select, &schemas);
        let ti = match self.find_table(&schemas, &select.table) {
            None => {
                return Err(DbError::TableNotFound);
            },
            Some(ti) => ti,
        };
        let cols = match schemas[ti].columns() {
            Err(e) => {
                return Err(e);
            },
            Ok(cols) => cols,
        };
        let sel_idx = match get_selected_column_indices(select, &cols) {
            Err(e) => {
                return Err(e);
            },
            Ok(idx) => idx,
        };
        let ghost colsv = cols.deep_view();
        let cc = cols.len();
        let root = schemas[ti].root_page;
        proof {
            assert(ssv[ti as int] == schemas@[ti as int].deep_view());
        }
        match (&select.filter, found) {
            (None, _) => {
                let rows = match self.scan_tree(cc, root, fuel) {
                    Err(e) => {
                        return Err(e);
                    },
                    Ok(rows) => rows,
                };
                proof {
                    lemma_scan_rows_len(self@, cc as nat, root, fuel as nat);
                }
                let out = project_rows(&rows, &sel_idx, Ghost(cc as nat));
                Ok(out)
            },
            (Some((c, lit)), Some(ii)) => {
                proof {
                    assert(ssv[ii as int] == schemas@[ii as int].deep_view());
                    lemma_find_index_char(ssv, select.deep_view().table, c@, 0);
                }
                let icols_len: usize = match &schemas[ii].sql {
                    Some(crate::sql::CreateStatement::CreateIndex { name, table, columns }) => {
                        proof {
                            assert(ssv[ii as int].sql == Some(
                                crate::sql::SpecCreateStatement::CreateIndex {
                                    name: name@,
                                    table: table@,
                                    columns: columns.deep_view(),
                                },
                            ));
                        }
                        columns.len()
                    },
                    _ => {
                        proof {
                            assert(false);
                        }
                        return Err(DbError::Malformed);
                    },
                };
                if icols_len == usize::MAX {
                    return Err(DbError::Malformed);
                }
                let keys = match self.search_in_index(
                    icols_len,
                    schemas[ii].root_page,
                    lit,
                    fuel,
                ) {
                    Err(e) => {
                        return Err(e);
                    },
                    Ok(keys) => keys,
                };
                let rows = match self.lookup_tree(cc, root, &keys, fuel) {
                    Err(e) => {
                        return Err(e);
                    },
                    Ok(rows) => rows,
                };
                proof {
                    lemma_lookup_rows_len(self@, cc as nat, root, keys@, fuel as nat);
                }
                let out = project_rows(&rows, &sel_idx, Ghost(cc as nat));
                Ok(out)
            },
            (Some((c, lit)), None) => {
                let fi = match col_pos(&cols, c) {
                    None => {
                        return Err(DbError::ColumnNotFound);
                    },
                    Some(fi) => fi,
                };
                let rows = match self.filter_scan(cc, root, fi, lit, fuel) {
                    Err(e) => {
                        return Err(e);
                    },
                    Ok(rows) => rows,
                };
                let out = project_rows(&rows, &sel_idx, Ghost(cc as nat));
                Ok(out)
            },
        }
    }

    /// Scans the table tree and keeps the rows whose column `fi` equals
    /// the literal.
    fn filter_scan(
        &self,
        column_count: usize,
        root: u64,
        fi: usize,
        lit: &Literal,
        fuel: u64,
    ) -> (r: Result<Vec<Vec<Value>>, DbError>)
        requires
            self.wf(),
            crate::numeric::literal_wf(lit@),
            fi < column_count,
        ensures
            match r {
                Ok(rows) => {
                    &&& spec_scan(self@, column_count as nat, root, fuel as nat) matches Ok(all)
                    &&& rows.deep_view() == spec_filter_rows_lit(all, fi as int, lit@, 0)
                    &&& forall|k: int|
                        0 <= k < rows.deep_view().len() ==> (#[trigger] rows.deep_view()[k]).len()
                            == column_count
                },
                Err(e) => spec_scan(self@, column_count as nat, root, fuel as nat) == Err::<
                    Seq<Seq<SpecValue>>,
                    DbError,
                >(e),
            },
    {
        let cc = column_count;
        let all = match self.scan_tree(cc, root, fuel) {
            Err(e) => {
                return Err(e);
            },
            Ok(rows) => rows,
        };
        let ghost av = all.deep_view();
        proof {
            lemma_scan_rows_len(self@, cc as nat, root, fuel as nat);
            assert(Seq::<Seq<SpecValue>>::empty().add(
                spec_filter_rows_lit(av, fi as int, lit@, 0),
            ) =~= spec_filter_rows_lit(av, fi as int, lit@, 0));
            assert forall|k: int| 0 <= k < all@.len() implies (#[trigger] all@[k])@.len()
                == cc by {
                assert(av[k] == spec_scan(self@, cc as nat, root, fuel as nat).unwrap()[k]);
                assert(av[k] == all@[k].deep_view());
                assert(all@[k].deep_view().len() == all@[k]@.len());
            }
        }
        let mut kept: Vec<Vec<Value>> = Vec::new();
        let mut i: usize = 0;
        while i < all.len()
            invariant
                i <= av.len(),
                av == all.deep_view(),
                fi < cc,
                crate::numeric::literal_wf(lit@),
                forall|k: int| 0 <= k < av.len() ==> (#[trigger] av[k]).len() == cc,
                forall|k: int| 0 <= k < all@.len() ==> (#[trigger] all@[k])@.len() == cc,
                forall|k: int|
                    0 <= k < kept.deep_view().len() ==> (#[trigger] kept.deep_view()[k]).len()
                        == cc,
                spec_filter_rows_lit(av, fi as int, lit@, 0) == kept.deep_view().add(
                    spec_filter_rows_lit(av, fi as int, lit@, i as int),
                ),
            decreases av.len() - i,
        {
            proof {
                assert(av[i as int] == all@[i as int].deep_view());
                assert(av[i as int][fi as int] == all@[i as int]@[fi as int]@);
            }
            if crate::numeric::literal_matches(lit, &all[i][fi]) {
                let cr = crate::record::clone_row(&all[i]);
                let ghost old_kept = kept.deep_view();
                let ghost cr_view = cr.deep_view();
                kept.push(cr);
                proof {
                    assert(kept.deep_view() =~~= old_kept.push(cr_view));
                    let rest = spec_filter_rows_lit(av, fi as int, lit@, i + 1);
                    assert(old_kept.add(seq![av[i as int]].add(rest)) =~= kept.deep_view().add(
                        rest,
                    ));
                }
            }
            i = i + 1;
        }
        proof {
            assert(kept.deep_view().add(Seq::<Seq<SpecValue>>::empty()) =~= kept.deep_view());
        }
        Ok(kept)
    }

    /// Returns the position of the first schema row named `name`.
    fn find_table(&self, schemas: &Vec<Schema>, name: &Vec<u8>) -> (r: Option<usize>)
        ensures
            match r {
                Some(i) => spec_find_named(schemas.deep_view(), name@, 0) == Some(i as int) && i
                    < schemas@.len(),
                None => spec_find_named(schemas.deep_view(), name@, 0) is None,
            },
    {
        let ghost ssv = schemas.deep_view();
        let mut i: usize = 0;
        while i < schemas.len()
            invariant
                i <= ssv.len(),
                ssv == schemas.deep_view(),
                spec_find_named(ssv, name@, 0) == spec_find_named(ssv, name@, i as int),
            decreases ssv.len() - i,
        {
            proof {
                assert(ssv[i as int] == schemas@[i as int].deep_view());
            }
            if bytes_eq(&schemas[i].name, name) {
                return Some(i);
            }
            i = i + 1;
        }
        None
    }
}

/// Projection determinism: a select's result is a function of the file
/// bytes and the query alone, so any two results of the same query on the
/// same file are identical.
pub proof fn lemma_projection_deterministic(
    file: Seq<u8>,
    sel: SpecSelect,
    r1: Result<Seq<Seq<SpecValue>>, DbError>,
    r2: Result<Seq<Seq<SpecValue>>, DbError>,
)
    requires
        r1 == spec_select(file, sel),
        r2 == spec_select(file, sel),
    ensures
        r1 == r2,
{
}

/// The number of cells the scan of the tree at `page_no` takes from each
/// reachable leaf page, summed: leaves count their header's cell count,
/// interior pages sum over their children.
pub open spec fn spec_leaf_count(file: Seq<u8>, page_no: u64, fuel: nat) -> nat
    decreases fuel, 0int, 0int,
{
    if fuel == 0 {
        0
    } else {
        match spec_read_page(file, page_no) {
            Err(_) => 0,
            Ok((off, h, page)) => match h.page_type {
                BTreePage::LeafTable => h.number_of_cells as nat,
                BTreePage::InteriorTable => match spec_table_interior(page, off, h) {
                    None => 0,
                    Some((cells, right)) => spec_leaf_count_children(
                        file,
                        spec_pages(cells, right),
                        (fuel - 1) as nat,
                        0,
                    ),
                },
                _ => 0,
            },
        }
    }
}

/// The summed leaf cell counts of the children from index `i` on.
pub open spec fn spec_leaf_count_children(
    file: Seq<u8>,
    children: Seq<u32>,
    fuel: nat,
    i: int,
) -> nat
    decreases fuel, 1int, children.len() - i,
{
    if i < 0 || i >= children.len() {
        0
    } else {
        spec_leaf_count(file, children[i] as u64, fuel) + spec_leaf_count_children(
            file,
            children,
            fuel,
            i + 1,
        )
    }
}

/// Whether every leaf page the scan of the tree at `page_no` reaches has
/// room for its full cell-pointer array, so that no cell is silently
/// dropped.
pub open spec fn spec_leaves_complete(file: Seq<u8>, page_no: u64, fuel: nat) -> bool
    decreases fuel, 0int, 0int,
{
    if fuel == 0 {
        true
    } else {
        match spec_read_page(file, page_no) {
            Err(_) => true,
            Ok((off, h, page)) => match h.page_type {
                BTreePage::LeafTable => (page.len() - (off + crate::page_header::spec_header_size(
                    h,
                ))) / 2 >= h.number_of_cells,
                BTreePage::InteriorTable => match spec_table_interior(page, off, h) {
                    None => true,
                    Some((cells, right)) => spec_leaves_complete_children(
                        file,
                        spec_pages(cells, right),
                        (fuel - 1) as nat,
                        0,
                    ),
                },
                _ => true,
            },
        }
    }
}

/// Whether the leaves under the children from index `i` on are complete.
pub open spec fn spec_leaves_complete_children(
    file: Seq<u8>,
    children: Seq<u32>,
    fuel: nat,
    i: int,
) -> bool
    decreases fuel, 1int, children.len() - i,
{
    if i < 0 || i >= children.len() {
        true
    } else {
        spec_leaves_complete(file, children[i] as u64, fuel) && spec_leaves_complete_children(
            file,
            children,
            fuel,
            i + 1,
        )
    }
}

/// A successful table-leaf parse yields one row per cell pointer.
proof fn lemma_leaf_rows_count(s: Seq<u8>, ptrs: Seq<u16>, n: nat, i: int)
    requires
        spec_leaf_rows_from(s, ptrs, n, i) is Some,
        0 <= i <= ptrs.len(),
    ensures
        spec_leaf_rows_from(s, ptrs, n, i).unwrap().len() == ptrs.len() - i,
    decreases ptrs.len() - i,
{
    if i < ptrs.len() {
        lemma_leaf_rows_count(s, ptrs, n, i + 1);
    }
}

/// Traversal completeness: when every reachable leaf holds its full
/// cell-pointer array, a full scan returns exactly as many rows as the
/// reachable leaf pages' cell counts sum to.
pub proof fn lemma_traversal_complete(file: Seq<u8>, cc: nat, page_no: u64, fuel: nat)
    requires
        spec_scan(file, cc, page_no, fuel) is Ok,
        spec_leaves_complete(file, page_no, fuel),
    ensures
        spec_scan(file, cc, page_no, fuel).unwrap().len() == spec_leaf_count(file, page_no, fuel),
    decreases fuel, 0int, 0int,
{
    let (off, h, page) = spec_read_page(file, page_no).unwrap();
    match h.page_type {
        BTreePage::LeafTable => {
            let hs = crate::page_header::spec_header_size(h);
            let ptrs = spec_cell_pointers(page, off + hs, h.number_of_cells as nat);
            lemma_leaf_rows_count(page, ptrs, cc, 0);
            assert(ptrs.len() == h.number_of_cells as nat);
        },
        BTreePage::InteriorTable => {
            let (cells, right) = spec_table_interior(page, off, h).unwrap();
            lemma_traversal_complete_children(
                file,
                cc,
                spec_pages(cells, right),
                (fuel - 1) as nat,
                0,
            );
        },
        _ => {},
    }
}

/// Completeness for the children scans from index `i` on.
proof fn lemma_traversal_complete_children(
    file: Seq<u8>,
    cc: nat,
    children: Seq<u32>,
    fuel: nat,
    i: int,
)
    requires
        spec_scan_children(file, cc, children, fuel, i) is Ok,
        spec_leaves_complete_children(file, children, fuel, i),
    ensures
        spec_scan_children(file, cc, children, fuel, i).unwrap().len() == spec_leaf_count_children(
            file,
            children,
            fuel,
            i,
        ),
    decreases fuel, 1int, children.len() - i,
{
    if i < 0 || i >= children.len() {
    } else {
        lemma_traversal_complete(file, cc, children[i] as u64, fuel);
        lemma_traversal_complete_children(file, cc, children, fuel, i + 1);
    }
}

/// A row a point lookup may return: its first column reads as a rowid
/// that is among the looked-up keys.
pub open spec fn row_matched(row: Seq<SpecValue>, keys: Seq<u64>) -> bool {
    &&& row.len() > 0
    &&& row[0].rowid() is Some
    &&& keys.contains(row[0].rowid().unwrap())
}

/// Every key of a child's group is one of the looked-up keys.
proof fn lemma_key_group_sub(keys: Seq<u64>, cells: Seq<TableInteriorCell>, j: int, i: int)
    ensures
        forall|x: u64|
            #[trigger] spec_key_group(keys, cells, j, i).contains(x) ==> keys.contains(x),
    decreases keys.len() - i,
{
    if i < 0 || i >= keys.len() {
    } else {
        lemma_key_group_sub(keys, cells, j, i + 1);
        let rest = spec_key_group(keys, cells, j, i + 1);
        let whole = spec_key_group(keys, cells, j, i);
        assert forall|x: u64| #[trigger] whole.contains(x) implies keys.contains(x) by {
            if whole != rest {
                let k = choose|k: int| 0 <= k < whole.len() && whole[k] == x;
                if k == 0 {
                    assert(keys[i] == x);
                    assert(keys.contains(x));
                } else {
                    assert(rest[k - 1] == x);
                    assert(rest.contains(x));
                }
            }
        }
    }
}

/// Every row the keyed filter keeps is one of the filtered rows, with a
/// rowid among the keys.
proof fn lemma_filter_keyed_sound(rows: Seq<Seq<SpecValue>>, keys: Seq<u64>, i: int)
    requires
        spec_filter_keyed(rows, keys, i) is Ok,
    ensures
        forall|j: int|
            0 <= j < spec_filter_keyed(rows, keys, i).unwrap().len() ==> row_matched(
                #[trigger] spec_filter_keyed(rows, keys, i).unwrap()[j],
                keys,
            ) && rows.contains(spec_filter_keyed(rows, keys, i).unwrap()[j]),
    decreases rows.len() - i,
{
    if i < 0 || i >= rows.len() {
    } else {
        lemma_filter_keyed_sound(rows, keys, i + 1);
        let rest = spec_filter_keyed(rows, keys, i + 1).unwrap();
        let whole = spec_filter_keyed(rows, keys, i).unwrap();
        assert forall|j: int| 0 <= j < whole.len() implies row_matched(#[trigger] whole[j], keys)
            && rows.contains(whole[j]) by {
            if whole != rest {
                if j == 0 {
                    assert(whole[0] == rows[i]);
                    assert(rows.contains(rows[i]));
                } else {
                    assert(whole[j] == rest[j - 1]);
                }
            }
        }
    }
}

/// A scan's child scans all succeed, and each child's rows appear among
/// the children scan's rows.
proof fn lemma_scan_children_member(
    file: Seq<u8>,
    cc: nat,
    children: Seq<u32>,
    fuel: nat,
    i: int,
    m: int,
)
    requires
        spec_scan_children(file, cc, children, fuel, i) is Ok,
        0 <= i <= m < children.len(),
    ensures
        spec_scan(file, cc, children[m] as u64, fuel) is Ok,
        forall|row: Seq<SpecValue>|
            #[trigger] spec_scan(file, cc, children[m] as u64, fuel).unwrap().contains(row)
                ==> spec_scan_children(file, cc, children, fuel, i).unwrap().contains(row),
    decreases m - i,
{
    let rows = spec_scan(file, cc, children[i] as u64, fuel).unwrap();
    let rest = spec_scan_children(file, cc, children, fuel, i + 1).unwrap();
    let whole = spec_scan_children(file, cc, children, fuel, i).unwrap();
    if i == m {
        assert forall|row: Seq<SpecValue>| #[trigger] rows.contains(row) implies whole.contains(
            row,
        ) by {
            let k = choose|k: int| 0 <= k < rows.len() && rows[k] == row;
            assert(whole[k] == row);
        }
    } else {
        lemma_scan_children_member(file, cc, children, fuel, i + 1, m);
        assert forall|row: Seq<SpecValue>|
            #[trigger] spec_scan(file, cc, children[m] as u64, fuel).unwrap().contains(row) implies
            whole.contains(row) by {
            assert(rest.contains(row));
            let k = choose|k: int| 0 <= k < rest.len() && rest[k] == row;
            assert(whole[rows.len() + k] == row);
        }
    }
}

/// Every row a point lookup returns is a row of the full scan of the same
/// tree, and its rowid is among the looked-up keys.
pub proof fn lemma_lookup_sound(file: Seq<u8>, cc: nat, page_no: u64, keys: Seq<u64>, fuel: nat)
    requires
        spec_lookup(file, cc, page_no, keys, fuel) is Ok,
        spec_scan(file, cc, page_no, fuel) is Ok,
    ensures
        forall|j: int|
            0 <= j < spec_lookup(file, cc, page_no, keys, fuel).unwrap().len() ==> row_matched(
                #[trigger] spec_lookup(file, cc, page_no, keys, fuel).unwrap()[j],
                keys,
            ) && spec_scan(file, cc, page_no, fuel).unwrap().contains(
                spec_lookup(file, cc, page_no, keys, fuel).unwrap()[j],
            ),
    decreases fuel, 0int, 0int,
{
    let (off, h, page) = spec_read_page(file, page_no).unwrap();
    match h.page_type {
        BTreePage::LeafTable => {
            let rows = spec_table_leaf_rows(page, off, h, cc).unwrap();
            lemma_filter_keyed_sound(rows, keys, 0);
        },
        BTreePage::InteriorTable => {
            let (cells, right) = spec_table_interior(page, off, h).unwrap();
            lemma_lookup_children_sound(file, cc, cells, right, keys, (fuel - 1) as nat, 0);
        },
        _ => {},
    }
}

/// Soundness of the children lookups from index `j` on, against the full
/// children scan.
proof fn lemma_lookup_children_sound(
    file: Seq<u8>,
    cc: nat,
    cells: Seq<TableInteriorCell>,
    right: u32,
    keys: Seq<u64>,
    fuel: nat,
    j: int,
)
    requires
        spec_lookup_children(file, cc, cells, right, keys, fuel, j) is Ok,
        spec_scan_children(file, cc, spec_pages(cells, right), fuel, 0) is Ok,
        0 <= j,
    ensures
        forall|m: int|
            0 <= m < spec_lookup_children(file, cc, cells, right, keys, fuel, j).unwrap().len()
                ==> row_matched(
                #[trigger] spec_lookup_children(file, cc, cells, right, keys, fuel, j).unwrap()[m],
                keys,
            ) && spec_scan_children(file, cc, spec_pages(cells, right), fuel, 0).unwrap().contains(
                spec_lookup_children(file, cc, cells, right, keys, fuel, j).unwrap()[m],
            ),
    decreases fuel, 1int, cells.len() + 1 - j,
{
    if j > cells.len() {
    } else {
        let children = spec_pages(cells, right);
        let child = if j < cells.len() {
            cells[j].left_child_page
        } else {
            right
        };
        assert(children[j] == child);
        let group = spec_key_group(keys, cells, j, 0);
        lemma_lookup_children_sound(file, cc, cells, right, keys, fuel, j + 1);
        if group.len() == 0 {
        } else {
            lemma_scan_children_member(file, cc, children, fuel, 0, j);
            lemma_lookup_sound(file, cc, child as u64, group, fuel);
            lemma_key_group_sub(keys, cells, j, 0);
            let rows = spec_lookup(file, cc, child as u64, group, fuel).unwrap();
            let rest = spec_lookup_children(file, cc, cells, right, keys, fuel, j + 1).unwrap();
            let whole = spec_lookup_children(file, cc, cells, right, keys, fuel, j).unwrap();
            let srows = spec_scan(file, cc, child as u64, fuel).unwrap();
            assert forall|m: int| 0 <= m < whole.len() implies row_matched(
                #[trigger] whole[m],
                keys,
            ) && spec_scan_children(file, cc, children, fuel, 0).unwrap().contains(
                whole[m],
            ) by {
                if m < rows.len() {
                    assert(whole[m] == rows[m]);
                    assert(row_matched(rows[m], group));
                    assert(group.contains(rows[m][0].rowid().unwrap()));
                    assert(srows.contains(rows[m]));
                } else {
                    assert(whole[m] == rest[m - rows.len()]);
                }
            }
        }
    }
}

/// Every rowid a leaf probe emits belongs to an index entry whose first
/// column equals the searched value.
pub proof fn lemma_probe_leaf_sound(rows: Seq<Seq<SpecValue>>, lit: SpecLiteral, cc: nat, i: int)
    requires
        spec_probe_leaf(rows, lit, cc, i) is Ok,
    ensures
        forall|m: int|
            0 <= m < spec_probe_leaf(rows, lit, cc, i).unwrap().len() ==> exists|k: int|
                0 <= k < rows.len() && spec_cmp_lit_value(lit, rows[k][0]) == Some(
                    CmpResult::Equal,
                ) && rows[k][cc as int].rowid() == Some(
                    #[trigger] spec_probe_leaf(rows, lit, cc, i).unwrap()[m],
                ),
    decreases rows.len() - i,
{
    if i < 0 || i >= rows.len() {
    } else {
        lemma_probe_leaf_sound(rows, lit, cc, i + 1);
        let rest = spec_probe_leaf(rows, lit, cc, i + 1).unwrap();
        let whole = spec_probe_leaf(rows, lit, cc, i).unwrap();
        assert forall|m: int| 0 <= m < whole.len() implies exists|k: int|
            0 <= k < rows.len() && spec_cmp_lit_value(lit, rows[k][0]) == Some(CmpResult::Equal)
                && rows[k][cc as int].rowid() == Some(#[trigger] whole[m]) by {
            if whole != rest && m == 0 {
                assert(spec_cmp_lit_value(lit, rows[i][0]) == Some(CmpResult::Equal)
                    && rows[i][cc as int].rowid() == Some(whole[0]));
            } else if whole != rest {
                assert(whole[m] == rest[m - 1]);
            }
        }
    }
}

/// Index soundness: when the table is consistent with the probed rowids —
/// every scanned row whose rowid is among them has its column `ci` equal
/// to the searched value — then every row a point lookup for those rowids
/// fetches has its column `ci` equal to the searched value.
pub proof fn lemma_index_soundness(
    file: Seq<u8>,
    cc: nat,
    troot: u64,
    rids: Seq<u64>,
    fuel: nat,
    ci: int,
    lit: SpecLiteral,
)
    requires
        spec_scan(file, cc, troot, fuel) is Ok,
        spec_lookup(file, cc, troot, rids, fuel) is Ok,
        forall|k: int|
            0 <= k < spec_scan(file, cc, troot, fuel).unwrap().len() && row_matched(
                #[trigger] spec_scan(file, cc, troot, fuel).unwrap()[k],
                rids,
            ) ==> spec_cmp_lit_value(lit, spec_scan(file, cc, troot, fuel).unwrap()[k][ci]) == Some(
                CmpResult::Equal,
            ),
    ensures
        forall|j: int|
            0 <= j < spec_lookup(file, cc, troot, rids, fuel).unwrap().len()
                ==> spec_cmp_lit_value(
                lit,
                #[trigger] spec_lookup(file, cc, troot, rids, fuel).unwrap()[j][ci],
            ) == Some(CmpResult::Equal),
{
    lemma_lookup_sound(file, cc, troot, rids, fuel);
    let trows = spec_scan(file, cc, troot, fuel).unwrap();
    let lrows = spec_lookup(file, cc, troot, rids, fuel).unwrap();
    assert forall|j: int| 0 <= j < lrows.len() implies spec_cmp_lit_value(
        lit,
        #[trigger] lrows[j][ci],
    ) == Some(CmpResult::Equal) by {
        assert(trows.contains(lrows[j]));
        let k = choose|k: int| 0 <= k < trows.len() && trows[k] == lrows[j];
        assert(row_matched(trows[k], rids));
    }
}

} // verus!
