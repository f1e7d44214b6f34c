//! Reading the cells of one B-tree page.
//!
//! After the page header comes an array of big-endian two-byte cell
//! offsets, one per cell, each measured from the start of the page.  The
//! readers here walk that array in order and decode each cell; they never
//! rely on any ordering of the offsets themselves.

use vstd::prelude::*;

use crate::cell::{
    spec_index_interior_cell, spec_index_leaf_cell, spec_leaf_record, spec_table_interior_cell,
    spec_table_leaf_cell, IndexInteriorCell, IndexLeafCell, TableInteriorCell, TableLeafCell,
};
use crate::error::DbError;
use crate::page_header::{spec_header_size, PageHeader};
use crate::record::{spec_be_uint, spec_parse_record, SpecValue, Value};

verus! {

/// The cell-pointer array that starts at `start`: as many two-byte
/// offsets as the cell count asks for and the page can hold.
pub open spec fn spec_cell_pointers(s: Seq<u8>, start: int, n: nat) -> Seq<u16> {
    let avail = if 0 <= start <= s.len() {
        ((s.len() - start) / 2) as nat
    } else {
        0
    };
    let count = if n <= avail {
        n
    } else {
        avail
    };
    Seq::new(count, |i: int| spec_be_uint(s, start + 2 * i, 2) as u16)
}

/// Reads the cell-pointer array that starts at `start`.
pub fn collect_cell_pointers(page: &[u8], start: usize, n: usize) -> (r: Vec<u16>)
    requires
        start <= page@.len(),
    ensures
        r@ == spec_cell_pointers(page@, start as int, n as nat),
{
    let plen: usize = page.len();
    let avail: usize = (plen - start) / 2;
    let count: usize = if n <= avail {
        n
    } else {
        avail
    };
    let mut out: Vec<u16> = Vec::new();
    let mut i: usize = 0;
    while i < count
        invariant
            i <= count,
            count <= avail,
            avail == (plen - start) / 2,
            start <= plen,
            plen == page@.len(),
            out@.len() == i,
            forall|k: int|
                0 <= k < i ==> out@[k] == spec_be_uint(page@, start + 2 * k, 2) as u16,
        decreases count - i,
    {
        proof {
            assert(start + 2 * i + 2 <= plen) by (nonlinear_arith)
                requires
                    i < (plen - start) / 2,
                    start <= plen,
            ;
        }
        let ptr = crate::page_header::read_be_u16(page, start + 2 * i);
        out.push(ptr);
        i = i + 1;
    }
    proof {
        assert(out@ =~= spec_cell_pointers(page@, start as int, n as nat));
    }
    out
}

/// The rows of a table-leaf page's cells from index `i` on, each parsed to
/// `n` columns with rowid aliasing.
pub open spec fn spec_leaf_rows_from(s: Seq<u8>, ptrs: Seq<u16>, n: nat, i: int) -> Option<
    Seq<Seq<SpecValue>>,
>
    decreases ptrs.len() - i,
{
    if i < 0 || i >= ptrs.len() {
        Some(Seq::empty())
    } else {
        match spec_table_leaf_cell(s, ptrs[i] as int) {
            None => None,
            Some((rowid, payload)) => match spec_leaf_record(payload, rowid, n) {
                None => None,
                Some(row) => match spec_leaf_rows_from(s, ptrs, n, i + 1) {
                    None => None,
                    Some(rest) => Some(seq![row].add(rest)),
                },
            },
        }
    }
}

/// The rows of a table-leaf page: header at `off`, then one record per
/// cell pointer, in pointer order.
pub open spec fn spec_table_leaf_rows(s: Seq<u8>, off: int, h: PageHeader, n: nat) -> Option<
    Seq<Seq<SpecValue>>,
> {
    if off < 0 || off + spec_header_size(h) > s.len() {
        None
    } else {
        spec_leaf_rows_from(
            s,
            spec_cell_pointers(s, off + spec_header_size(h), h.number_of_cells as nat),
            n,
            0,
        )
    }
}

/// Every row of a table-leaf page parse has exactly `n` columns.
pub proof fn lemma_leaf_rows_len(s: Seq<u8>, ptrs: Seq<u16>, n: nat, i: int)
    requires
        spec_leaf_rows_from(s, ptrs, n, i) is Some,
    ensures
        forall|k: int|
            0 <= k < spec_leaf_rows_from(s, ptrs, n, i).unwrap().len() ==> (
            #[trigger] spec_leaf_rows_from(s, ptrs, n, i).unwrap()[k]).len() == n,
    decreases ptrs.len() - i,
{
    if i < 0 || i >= ptrs.len() {
    } else {
        let (rowid, payload) = spec_table_leaf_cell(s, ptrs[i] as int).unwrap();
        crate::record::lemma_parse_record_len(payload, n);
        lemma_leaf_rows_len(s, ptrs, n, i + 1);
        let row = spec_leaf_record(payload, rowid, n).unwrap();
        let rest = spec_leaf_rows_from(s, ptrs, n, i + 1).unwrap();
        let whole = spec_leaf_rows_from(s, ptrs, n, i).unwrap();
        assert forall|k: int| 0 <= k < whole.len() implies (#[trigger] whole[k]).len() == n by {
            if k == 0 {
                assert(whole[0] == row);
            } else {
                assert(whole[k] == rest[k - 1]);
            }
        }
    }
}

/// Parses every cell of a table-leaf page into a row of `column_count`
/// columns, aliasing Null first columns to the cells' rowids.
pub fn parse_table_leaf(
    page: &[u8],
    db_header_offset: usize,
    page_header: &PageHeader,
    column_count: usize,
) -> (r: Result<Vec<Vec<Value>>, DbError>)
    ensures
        match r {
            Ok(rows) => spec_table_leaf_rows(
                page@,
                db_header_offset as int,
                *page_header,
                column_count as nat,
            ) == Some(rows.deep_view()),
            Err(e) => e == DbError::Malformed && spec_table_leaf_rows(
                page@,
                db_header_offset as int,
                *page_header,
                column_count as nat,
            ) is None,
        },
{
    let plen: usize = page.len();
    let hs = page_header.size();
    if db_header_offset >= plen || plen - db_header_offset < hs {
        return Err(DbError::Malformed);
    }
    let ptrs = collect_cell_pointers(
        page,
        db_header_offset + hs,
        page_header.number_of_cells as usize,
    );
    let ghost pv = ptrs@;
    let mut rows: Vec<Vec<Value>> = Vec::new();
    let mut i: usize = 0;
    while i < ptrs.len()
        invariant
            i <= pv.len(),
            pv == ptrs@,
            spec_table_leaf_rows(
                page@,
                db_header_offset as int,
                *page_header,
                column_count as nat,
            ) == (match spec_leaf_rows_from(page@, pv, column_count as nat, i as int) {
                None => None::<Seq<Seq<SpecValue>>>,
                Some(rest) => Some(rows.deep_view().add(rest)),
            }),
        decreases pv.len() - i,
    {
        let cell = match TableLeafCell::parse(page, ptrs[i] as usize) {
            Err(e) => {
                return Err(e);
            },
            Ok(c) => c,
        };
        let row = match cell.get_record(column_count) {
            Err(e) => {
                return Err(e);
            },
            Ok(v) => v,
        };
        let ghost old_rows = rows.deep_view();
        let ghost row_view = row.deep_view();
        rows.push(row);
        proof {
            assert(rows.deep_view() =~~= old_rows.push(row_view));
            if spec_leaf_rows_from(page@, pv, column_count as nat, i + 1) is Some {
                let rest = spec_leaf_rows_from(page@, pv, column_count as nat, i + 1).unwrap();
                assert(old_rows.add(seq![row_view].add(rest)) =~= rows.deep_view().add(rest));
            }
        }
        i = i + 1;
    }
    proof {
        assert(rows.deep_view().add(Seq::<Seq<SpecValue>>::empty()) =~= rows.deep_view());
    }
    Ok(rows)
}

/// A decoded table-interior page: the cells in pointer order and the
/// right-most child page.
#[derive(Clone, Debug)]
pub struct TableBTree {
    pub left: Vec<TableInteriorCell>,
    pub right: u32,
}

/// The cells of a table-interior page from index `i` on.
pub open spec fn spec_interior_cells_from(s: Seq<u8>, ptrs: Seq<u16>, i: int) -> Option<
    Seq<TableInteriorCell>,
>
    decreases ptrs.len() - i,
{
    if i < 0 || i >= ptrs.len() {
        Some(Seq::empty())
    } else {
        match spec_table_interior_cell(s, ptrs[i] as int) {
            None => None,
            Some(c) => match spec_interior_cells_from(s, ptrs, i + 1) {
                None => None,
                Some(rest) => Some(seq![c].add(rest)),
            },
        }
    }
}

/// A table-interior page: its cells in pointer order and its right-most
/// pointer, which must be present.
pub open spec fn spec_table_interior(s: Seq<u8>, off: int, h: PageHeader) -> Option<
    (Seq<TableInteriorCell>, u32),
> {
    match h.right_most_pointer {
        None => None,
        Some(right) => {
            if off < 0 || off + spec_header_size(h) > s.len() {
                None
            } else {
                match spec_interior_cells_from(
                    s,
                    spec_cell_pointers(s, off + spec_header_size(h), h.number_of_cells as nat),
                    0,
                ) {
                    None => None,
                    Some(cells) => Some((cells, right)),
                }
            }
        },
    }
}

/// Parses every cell of a table-interior page.
pub fn parse_table_interior(page: &[u8], db_header_offset: usize, page_header: &PageHeader) -> (r:
    Result<TableBTree, DbError>)
    ensures
        match r {
            Ok(t) => spec_table_interior(page@, db_header_offset as int, *page_header) == Some(
                (t.left@, t.right),
            ),
            Err(e) => e == DbError::Malformed && spec_table_interior(
                page@,
                db_header_offset as int,
                *page_header,
            ) is None,
        },
{
    let right = match page_header.right_most_pointer {
        None => {
            return Err(DbError::Malformed);
        },
        Some(r) => r,
    };
    let plen: usize = page.len();
    let hs = page_header.size();
    if db_header_offset >= plen || plen - db_header_offset < hs {
        return Err(DbError::Malformed);
    }
    let ptrs = collect_cell_pointers(
        page,
        db_header_offset + hs,
        page_header.number_of_cells as usize,
    );
    let ghost pv = ptrs@;
    let mut left: Vec<TableInteriorCell> = Vec::new();
    let mut i: usize = 0;
    proof {
        if spec_interior_cells_from(page@, pv, 0) is Some {
            assert(Seq::<TableInteriorCell>::empty().add(
                spec_interior_cells_from(page@, pv, 0).unwrap(),
            ) =~= spec_interior_cells_from(page@, pv, 0).unwrap());
        }
    }
    while i < ptrs.len()
        invariant
            i <= pv.len(),
            pv == ptrs@,
            spec_table_interior(page@, db_header_offset as int, *page_header) == (match
                spec_interior_cells_from(page@, pv, i as int) {
                None => None::<(Seq<TableInteriorCell>, u32)>,
                Some(rest) => Some((left@.add(rest), right)),
            }),
        decreases pv.len() - i,
    {
        let cell = match TableInteriorCell::parse(page, ptrs[i] as usize) {
            Err(e) => {
                return Err(e);
            },
            Ok(c) => c,
        };
        let ghost old_left = left@;
        left.push(cell);
        proof {
            if spec_interior_cells_from(page@, pv, i + 1) is Some {
                let rest = spec_interior_cells_from(page@, pv, i + 1).unwrap();
                assert(old_left.add(seq![cell].add(rest)) =~= left@.add(rest));
            }
        }
        i = i + 1;
    }
    proof {
        assert(left@.add(Seq::<TableInteriorCell>::empty()) =~= left@);
    }
    Ok(TableBTree { left, right })
}

/// The child pages of a decoded table-interior page: each cell's left
/// child in order, then the right-most child.
pub open spec fn spec_pages(cells: Seq<TableInteriorCell>, right: u32) -> Seq<u32> {
    Seq::new(
        cells.len() + 1,
        |i: int|
            if i < cells.len() {
                cells[i].left_child_page
            } else {
                right
            },
    )
}

impl TableBTree {
    /// Returns the child pages in traversal order: every cell's left
    /// child, then the right-most child.
    pub fn pages(&self) -> (r: Vec<u32>)
        ensures
            r@ == spec_pages(self.left@, self.right),
    {
        let mut out: Vec<u32> = Vec::new();
        let mut i: usize = 0;
        while i < self.left.len()
            invariant
                i <= self.left@.len(),
                out@.len() == i,
                forall|k: int| 0 <= k < i ==> out@[k] == self.left@[k].left_child_page,
            decreases self.left@.len() - i,
        {
            out.push(self.left[i].left_child_page);
            i = i + 1;
        }
        out.push(self.right);
        proof {
            assert(out@ =~= spec_pages(self.left@, self.right));
        }
        out
    }
}

/// The records of an index-leaf page's cells from index `i` on, each
/// parsed to `n` columns.
pub open spec fn spec_index_leaf_rows_from(s: Seq<u8>, ptrs: Seq<u16>, n: nat, i: int) -> Option<
    Seq<Seq<SpecValue>>,
>
    decreases ptrs.len() - i,
{
    if i < 0 || i >= ptrs.len() {
        Some(Seq::empty())
    } else {
        match spec_index_leaf_cell(s, ptrs[i] as int) {
            None => None,
            Some(payload) => match spec_parse_record(payload, n) {
                None => None,
                Some(row) => match spec_index_leaf_rows_from(s, ptrs, n, i + 1) {
                    None => None,
                    Some(rest) => Some(seq![row].add(rest)),
                },
            },
        }
    }
}

/// The records of an index-leaf page, each of `n` columns.
pub open spec fn spec_index_leaf(s: Seq<u8>, h: PageHeader, n: nat) -> Option<
    Seq<Seq<SpecValue>>,
> {
    if spec_header_size(h) > s.len() {
        None
    } else {
        spec_index_leaf_rows_from(
            s,
            spec_cell_pointers(s, spec_header_size(h), h.number_of_cells as nat),
            n,
            0,
        )
    }
}

/// Parses every cell of an index-leaf page into a record of
/// `column_count` columns.
pub fn parse_index_leaf(page: &[u8], page_header: &PageHeader, column_count: usize) -> (r: Result<
    Vec<Vec<Value>>,
    DbError,
>)
    ensures
        match r {
            Ok(rows) => spec_index_leaf(page@, *page_header, column_count as nat) == Some(
                rows.deep_view(),
            ),
            Err(e) => e == DbError::Malformed && spec_index_leaf(
                page@,
                *page_header,
                column_count as nat,
            ) is None,
        },
{
    let plen: usize = page.len();
    let hs = page_header.size();
    if hs > plen {
        return Err(DbError::Malformed);
    }
    let ptrs = collect_cell_pointers(page, hs, page_header.number_of_cells as usize);
    let ghost pv = ptrs@;
    let mut rows: Vec<Vec<Value>> = Vec::new();
    let mut i: usize = 0;
    while i < ptrs.len()
        invariant
            i <= pv.len(),
            pv == ptrs@,
            spec_index_leaf(page@, *page_header, column_count as nat) == (match
                spec_index_leaf_rows_from(page@, pv, column_count as nat, i as int) {
                None => None::<Seq<Seq<SpecValue>>>,
                Some(rest) => Some(rows.deep_view().add(rest)),
            }),
        decreases pv.len() - i,
    {
        let cell = match IndexLeafCell::parse(page, ptrs[i] as usize) {
            Err(e) => {
                return Err(e);
            },
            Ok(c) => c,
        };
        let row = match cell.get_record(column_count) {
            Err(e) => {
                return Err(e);
            },
            Ok(v) => v,
        };
        let ghost old_rows = rows.deep_view();
        let ghost row_view = row.deep_view();
        rows.push(row);
        proof {
            assert(rows.deep_view() =~~= old_rows.push(row_view));
            if spec_index_leaf_rows_from(page@, pv, column_count as nat, i + 1) is Some {
                let rest = spec_index_leaf_rows_from(
                    page@,
                    pv,
                    column_count as nat,
                    i + 1,
                ).unwrap();
                assert(old_rows.add(seq![row_view].add(rest)) =~= rows.deep_view().add(rest));
            }
        }
        i = i + 1;
    }
    proof {
        assert(rows.deep_view().add(Seq::<Seq<SpecValue>>::empty()) =~= rows.deep_view());
    }
    Ok(rows)
}

/// Every record of an index-leaf page parse has exactly `n` columns.
pub proof fn lemma_index_leaf_rows_len(s: Seq<u8>, ptrs: Seq<u16>, n: nat, i: int)
    requires
        spec_index_leaf_rows_from(s, ptrs, n, i) is Some,
    ensures
        forall|k: int|
            0 <= k < spec_index_leaf_rows_from(s, ptrs, n, i).unwrap().len()
                ==> (#[trigger] spec_index_leaf_rows_from(s, ptrs, n, i).unwrap()[k]).len() == n,
    decreases ptrs.len() - i,
{
    if i < 0 || i >= ptrs.len() {
    } else {
        let payload = spec_index_leaf_cell(s, ptrs[i] as int).unwrap();
        crate::record::lemma_parse_record_len(payload, n);
        lemma_index_leaf_rows_len(s, ptrs, n, i + 1);
        let row = spec_parse_record(payload, n).unwrap();
        let rest = spec_index_leaf_rows_from(s, ptrs, n, i + 1).unwrap();
        let whole = spec_index_leaf_rows_from(s, ptrs, n, i).unwrap();
        assert forall|k: int| 0 <= k < whole.len() implies (#[trigger] whole[k]).len() == n by {
            if k == 0 {
                assert(whole[0] == row);
            } else {
                assert(whole[k] == rest[k - 1]);
            }
        }
    }
}

/// A decoded index-interior page: each cell's left child and record, in
/// pointer order, and the right-most child page.
#[derive(Clone, Debug)]
pub struct IndexBTree {
    pub left: Vec<(u32, Vec<Value>)>,
    pub right: u32,
}

/// The cells of an index-interior page from index `i` on, records parsed
/// to `n` columns.
pub open spec fn spec_index_interior_cells_from(
    s: Seq<u8>,
    ptrs: Seq<u16>,
    n: nat,
    i: int,
) -> Option<Seq<(u32, Seq<SpecValue>)>>
    decreases ptrs.len() - i,
{
    if i < 0 || i >= ptrs.len() {
        Some(Seq::empty())
    } else {
        match spec_index_interior_cell(s, ptrs[i] as int) {
            None => None,
            Some((child, payload)) => match spec_parse_record(payload, n) {
                None => None,
                Some(row) => match spec_index_interior_cells_from(s, ptrs, n, i + 1) {
                    None => None,
                    Some(rest) => Some(seq![(child, row)].add(rest)),
                },
            },
        }
    }
}

/// Every record of an index-interior page parse has exactly `n` columns.
pub proof fn lemma_index_interior_cells_len(s: Seq<u8>, ptrs: Seq<u16>, n: nat, i: int)
    requires
        spec_index_interior_cells_from(s, ptrs, n, i) is Some,
    ensures
        forall|k: int|
            0 <= k < spec_index_interior_cells_from(s, ptrs, n, i).unwrap().len() ==> (
            #[trigger] spec_index_interior_cells_from(s, ptrs, n, i).unwrap()[k]).1.len() == n,
    decreases ptrs.len() - i,
{
    if i < 0 || i >= ptrs.len() {
    } else {
        let (child, payload) = spec_index_interior_cell(s, ptrs[i] as int).unwrap();
        crate::record::lemma_parse_record_len(payload, n);
        lemma_index_interior_cells_len(s, ptrs, n, i + 1);
        let row = spec_parse_record(payload, n).unwrap();
        let rest = spec_index_interior_cells_from(s, ptrs, n, i + 1).unwrap();
        let whole = spec_index_interior_cells_from(s, ptrs, n, i).unwrap();
        assert forall|k: int| 0 <= k < whole.len() implies (#[trigger] whole[k]).1.len() == n by {
            if k == 0 {
                assert(whole[0] == (child, row));
            } else {
                assert(whole[k] == rest[k - 1]);
            }
        }
    }
}

/// An index-interior page with records of `column_count + 1` columns (the
/// indexed columns plus the rowid) and its right-most pointer, which must
/// be present.
pub open spec fn spec_index_interior(s: Seq<u8>, h: PageHeader, column_count: nat) -> Option<
    (Seq<(u32, Seq<SpecValue>)>, u32),
> {
    match h.right_most_pointer {
        None => None,
        Some(right) => {
            if spec_header_size(h) > s.len() {
                None
            } else {
                match spec_index_interior_cells_from(
                    s,
                    spec_cell_pointers(s, spec_header_size(h), h.number_of_cells as nat),
                    column_count + 1,
                    0,
                ) {
                    None => None,
                    Some(cells) => Some((cells, right)),
                }
            }
        },
    }
}

/// Parses every cell of an index-interior page; each record has
/// `column_count + 1` columns, the indexed columns plus the rowid.
pub fn parse_index_interior(page: &[u8], page_header: &PageHeader, column_count: usize) -> (r:
    Result<IndexBTree, DbError>)
    requires
        column_count < usize::MAX,
    ensures
        match r {
            Ok(t) => spec_index_interior(page@, *page_header, column_count as nat) == Some(
                (t.left.deep_view(), t.right),
            ),
            Err(e) => e == DbError::Malformed && spec_index_interior(
                page@,
                *page_header,
                column_count as nat,
            ) is None,
        },
{
    let right = match page_header.right_most_pointer {
        None => {
            return Err(DbError::Malformed);
        },
        Some(r) => r,
    };
    let plen: usize = page.len();
    let hs = page_header.size();
    if hs > plen {
        return Err(DbError::Malformed);
    }
    let ptrs = collect_cell_pointers(page, hs, page_header.number_of_cells as usize);
    let ghost pv = ptrs@;
    let mut left: Vec<(u32, Vec<Value>)> = Vec::new();
    let mut i: usize = 0;
    proof {
        if spec_index_interior_cells_from(page@, pv, (column_count + 1) as nat, 0) is Some {
            assert(Seq::<(u32, Seq<SpecValue>)>::empty().add(
                spec_index_interior_cells_from(page@, pv, (column_count + 1) as nat, 0).unwrap(),
            ) =~= spec_index_interior_cells_from(page@, pv, (column_count + 1) as nat, 0).unwrap());
        }
    }
    while i < ptrs.len()
        invariant
            i <= pv.len(),
            pv == ptrs@,
            column_count < usize::MAX,
            spec_index_interior(page@, *page_header, column_count as nat) == (match
                spec_index_interior_cells_from(page@, pv, (column_count + 1) as nat, i as int) {
                None => None::<(Seq<(u32, Seq<SpecValue>)>, u32)>,
                Some(rest) => Some((left.deep_view().add(rest), right)),
            }),
        decreases pv.len() - i,
    {
        let cell = match IndexInteriorCell::parse(page, ptrs[i] as usize) {
            Err(e) => {
                return Err(e);
            },
            Ok(c) => c,
        };
        let row = match cell.get_record(column_count + 1) {
            Err(e) => {
                return Err(e);
            },
            Ok(v) => v,
        };
        let ghost old_left = left.deep_view();
        let ghost entry_view = (cell.left_child_page, row.deep_view());
        left.push((cell.left_child_page, row));
        proof {
            assert(left.deep_view() =~~= old_left.push(entry_view));
            if spec_index_interior_cells_from(page@, pv, (column_count + 1) as nat, i + 1) is Some {
                let rest = spec_index_interior_cells_from(
                    page@,
                    pv,
                    (column_count + 1) as nat,
                    i + 1,
                ).unwrap();
                assert(old_left.add(seq![entry_view].add(rest)) =~= left.deep_view().add(rest));
            }
        }
        i = i + 1;
    }
    proof {
        assert(left.deep_view().add(Seq::<(u32, Seq<SpecValue>)>::empty()) =~= left.deep_view());
    }
    Ok(IndexBTree { left, right })
}

} // verus!
