//! End-to-end tests of the query engine on hand-assembled database files.

use sqlite_reader::db::DB;
use sqlite_reader::error::DbError;
use sqlite_reader::record::Value;
use sqlite_reader::sql::Select;
use sqlite_reader::varint::encode_varint;

const PAGE_SIZE: usize = 512;

/// The serial type of a text column of `len` bytes.
fn text_serial(len: usize) -> u64 {
    13 + 2 * len as u64
}

/// A record payload: header-size varint, serial-type varints, column bytes.
fn record(serials: &[u64], body: &[u8]) -> Vec<u8> {
    let mut hdr = Vec::new();
    for s in serials {
        hdr.extend(encode_varint(*s));
    }
    let mut out = encode_varint(hdr.len() as u64 + 1);
    assert_eq!(out.len(), 1, "header size must fit one varint byte");
    out.extend(hdr);
    out.extend(body);
    out
}

/// A schema-table record: kind, name, table name, root page, sql text.
fn schema_record(kind: &str, name: &str, tbl: &str, root: i8, sql: &str) -> Vec<u8> {
    let serials = [
        text_serial(kind.len()),
        text_serial(name.len()),
        text_serial(tbl.len()),
        1,
        text_serial(sql.len()),
    ];
    let mut body = Vec::new();
    body.extend(kind.as_bytes());
    body.extend(name.as_bytes());
    body.extend(tbl.as_bytes());
    body.push(root as u8);
    body.extend(sql.as_bytes());
    record(&serials, &body)
}

/// A table-leaf cell: payload size, rowid, payload.
fn leaf_cell(rowid: u64, payload: &[u8]) -> Vec<u8> {
    let mut out = encode_varint(payload.len() as u64);
    out.extend(encode_varint(rowid));
    out.extend(payload);
    out
}

/// An index-leaf cell: payload size, payload.
fn index_leaf_cell(payload: &[u8]) -> Vec<u8> {
    let mut out = encode_varint(payload.len() as u64);
    out.extend(payload);
    out
}

/// An index-interior cell: left child, payload size, payload.
fn index_interior_cell(child: u32, payload: &[u8]) -> Vec<u8> {
    let mut out = child.to_be_bytes().to_vec();
    out.extend(encode_varint(payload.len() as u64));
    out.extend(payload);
    out
}

fn put_u16(page: &mut [u8], at: usize, v: u16) {
    page[at] = (v >> 8) as u8;
    page[at + 1] = v as u8;
}

fn put_u32(page: &mut [u8], at: usize, v: u32) {
    page[at..at + 4].copy_from_slice(&v.to_be_bytes());
}

/// Lays out a page: kind byte, cell count, optional right-most pointer,
/// the cell-pointer array, and the cells packed at the page's end.
fn page(kind: u8, hdr_at: usize, right: Option<u32>, cells: &[Vec<u8>]) -> Vec<u8> {
    let mut p = vec![0u8; PAGE_SIZE];
    p[hdr_at] = kind;
    put_u16(&mut p, hdr_at + 3, cells.len() as u16);
    let hdr_size = if right.is_some() { 12 } else { 8 };
    if let Some(r) = right {
        put_u32(&mut p, hdr_at + 8, r);
    }
    let mut pos = PAGE_SIZE;
    for (i, cell) in cells.iter().enumerate() {
        pos -= cell.len();
        p[pos..pos + cell.len()].copy_from_slice(cell);
        put_u16(&mut p, hdr_at + hdr_size + 2 * i, pos as u16);
    }
    put_u16(&mut p, hdr_at + 5, pos as u16);
    p
}

/// Assembles a database file: page one carries the file header in its
/// first hundred bytes.
fn db_file(pages: Vec<Vec<u8>>) -> Vec<u8> {
    let mut file = Vec::new();
    for p in pages {
        assert_eq!(p.len(), PAGE_SIZE);
        file.extend(p);
    }
    put_u16(&mut file, 16, PAGE_SIZE as u16);
    file
}

/// An apples row: aliased integer primary key, name, color.
fn apple_record(name: &str, color: &str) -> Vec<u8> {
    let serials = [0, text_serial(name.len()), text_serial(color.len())];
    let mut body = Vec::new();
    body.extend(name.as_bytes());
    body.extend(color.as_bytes());
    record(&serials, &body)
}

/// The sample file: tables `apples` (four rows on page 2) and `oranges`
/// (one row on page 3).
fn sample_db() -> Vec<u8> {
    let schema = page(
        13,
        100,
        None,
        &[
            leaf_cell(
                1,
                &schema_record(
                    "table",
                    "apples",
                    "apples",
                    2,
                    "CREATE TABLE apples (id integer primary key, name text, color text)",
                ),
            ),
            leaf_cell(
                2,
                &schema_record(
                    "table",
                    "oranges",
                    "oranges",
                    3,
                    "CREATE TABLE oranges (id integer primary key, name text)",
                ),
            ),
        ],
    );
    let apples = page(
        13,
        0,
        None,
        &[
            leaf_cell(1, &apple_record("Fuji", "Red")),
            leaf_cell(2, &apple_record("Granny Smith", "Green")),
            leaf_cell(3, &apple_record("Honeycrisp", "Red")),
            leaf_cell(4, &apple_record("Braeburn", "Green")),
        ],
    );
    let orange_row = {
        let serials = [0, text_serial("Valencia".len())];
        let mut body = Vec::new();
        body.extend("Valencia".as_bytes());
        record(&serials, &body)
    };
    let oranges = page(13, 0, None, &[leaf_cell(1, &orange_row)]);
    db_file(vec![schema, apples, oranges])
}

fn text(s: &str) -> Value {
    Value::Text(s.as_bytes().to_vec())
}

#[test]
fn tables_lists_apples_and_oranges() {
    let db = DB::new(sample_db()).unwrap();
    let tables = db.tables().unwrap();
    assert_eq!(tables, vec![b"apples".to_vec(), b"oranges".to_vec()]);
}

#[test]
fn count_apples_is_four() {
    let db = DB::new(sample_db()).unwrap();
    assert_eq!(db.count(b"apples").unwrap(), 4);
}

#[test]
fn count_missing_table_fails() {
    let db = DB::new(sample_db()).unwrap();
    assert_eq!(db.count(b"pears"), Err(DbError::TableNotFound));
}

#[test]
fn select_names_in_catalog_order() {
    let db = DB::new(sample_db()).unwrap();
    let sel = Select::parse_select(b"SELECT name FROM apples").unwrap();
    let rows = db.select(&sel).unwrap();
    assert_eq!(
        rows,
        vec![
            vec![text("Fuji")],
            vec![text("Granny Smith")],
            vec![text("Honeycrisp")],
            vec![text("Braeburn")],
        ]
    );
}

#[test]
fn select_filter_without_match_is_empty() {
    let db = DB::new(sample_db()).unwrap();
    let sel = Select::parse_select(b"SELECT name, color FROM apples WHERE color = 'Yellow'")
        .unwrap();
    let rows = db.select(&sel).unwrap();
    assert_eq!(rows, Vec::<Vec<Value>>::new());
}

#[test]
fn select_filter_keeps_matching_rows() {
    let db = DB::new(sample_db()).unwrap();
    let sel = Select::parse_select(b"SELECT name FROM apples WHERE color = 'Red'").unwrap();
    let rows = db.select(&sel).unwrap();
    assert_eq!(rows, vec![vec![text("Fuji")], vec![text("Honeycrisp")]]);
}

#[test]
fn select_aliases_rowid_for_null_primary_key() {
    let db = DB::new(sample_db()).unwrap();
    let sel = Select::parse_select(b"select id, name from apples").unwrap();
    let rows = db.select(&sel).unwrap();
    assert_eq!(rows[0], vec![Value::I64(1), text("Fuji")]);
    assert_eq!(rows[3], vec![Value::I64(4), text("Braeburn")]);
}

#[test]
fn select_unknown_column_fails() {
    let db = DB::new(sample_db()).unwrap();
    let sel = Select::parse_select(b"SELECT wormcount FROM apples").unwrap();
    assert_eq!(db.select(&sel), Err(DbError::ColumnNotFound));
}

#[test]
fn select_unknown_table_fails() {
    let db = DB::new(sample_db()).unwrap();
    let sel = Select::parse_select(b"SELECT name FROM pears").unwrap();
    assert_eq!(db.select(&sel), Err(DbError::TableNotFound));
}

/// A `t` row: only the aliased integer primary key.
fn t_record() -> Vec<u8> {
    record(&[0], &[])
}

/// A multi-page table: the root on page 2 is an interior page whose two
/// children hold rowids one and two, and three and four.
fn multipage_db() -> Vec<u8> {
    let schema = page(
        13,
        100,
        None,
        &[leaf_cell(1, &schema_record("table", "t", "t", 2, "CREATE TABLE t (id integer primary key)"))],
    );
    let root = page(5, 0, Some(4), &[{
        let mut c = 3u32.to_be_bytes().to_vec();
        c.extend(encode_varint(2));
        c
    }]);
    let leaf1 = page(13, 0, None, &[leaf_cell(1, &t_record()), leaf_cell(2, &t_record())]);
    let leaf2 = page(13, 0, None, &[leaf_cell(3, &t_record()), leaf_cell(4, &t_record())]);
    db_file(vec![schema, root, leaf1, leaf2])
}

#[test]
fn multipage_scan_yields_rowids_in_order() {
    let db = DB::new(multipage_db()).unwrap();
    let sel = Select::parse_select(b"SELECT id FROM t").unwrap();
    let rows = db.select(&sel).unwrap();
    assert_eq!(
        rows,
        vec![
            vec![Value::I64(1)],
            vec![Value::I64(2)],
            vec![Value::I64(3)],
            vec![Value::I64(4)],
        ]
    );
}

/// A companies row: aliased key, name, country.
fn company_record(name: &str, country: &str) -> Vec<u8> {
    let serials = [0, text_serial(name.len()), text_serial(country.len())];
    let mut body = Vec::new();
    body.extend(name.as_bytes());
    body.extend(country.as_bytes());
    record(&serials, &body)
}

/// An index entry: the indexed country and the rowid.
fn country_entry(country: &str, rowid: i8) -> Vec<u8> {
    let serials = [text_serial(country.len()), 1];
    let mut body = Vec::new();
    body.extend(country.as_bytes());
    body.push(rowid as u8);
    record(&serials, &body)
}

/// Companies with an index on `country` whose root (page 3) is a leaf.
fn companies_db(with_index: bool) -> Vec<u8> {
    let mut schema_rows = vec![leaf_cell(
        1,
        &schema_record(
            "table",
            "companies",
            "companies",
            2,
            "CREATE TABLE companies (id integer primary key, name text, country text)",
        ),
    )];
    if with_index {
        schema_rows.push(leaf_cell(
            2,
            &schema_record(
                "index",
                "idx_companies_country",
                "companies",
                3,
                "CREATE INDEX idx_companies_country ON companies (country)",
            ),
        ));
    }
    let schema = page(13, 100, None, &schema_rows);
    let companies = page(
        13,
        0,
        None,
        &[
            leaf_cell(1, &company_record("Atlas", "eritrea")),
            leaf_cell(2, &company_record("Beta", "france")),
            leaf_cell(3, &company_record("Gamma", "eritrea")),
        ],
    );
    let index = page(
        10,
        0,
        None,
        &[
            index_leaf_cell(&country_entry("eritrea", 1)),
            index_leaf_cell(&country_entry("eritrea", 3)),
            index_leaf_cell(&country_entry("france", 2)),
        ],
    );
    db_file(vec![schema, companies, index])
}

#[test]
fn index_probe_matches_full_scan() {
    let query: &[u8] = b"SELECT name FROM companies WHERE country = 'eritrea'";
    let indexed = DB::new(companies_db(true)).unwrap();
    let fallback = DB::new(companies_db(false)).unwrap();
    let sel = Select::parse_select(query).unwrap();
    let via_index = indexed.select(&sel).unwrap();
    let via_scan = fallback.select(&sel).unwrap();
    assert_eq!(via_index, vec![vec![text("Atlas")], vec![text("Gamma")]]);
    assert_eq!(via_index, via_scan);
    // the row count matches the number of leaf-index entries for the key
    assert_eq!(via_index.len(), 2);
}

/// Companies with an interior index root: page 3 is an interior index
/// page whose one cell carries the `france` entry and points at the leaf
/// of `eritrea` entries (page 4); the right-most child (page 5) holds
/// nothing.
fn companies_interior_index_db() -> Vec<u8> {
    let schema = page(
        13,
        100,
        None,
        &[
            leaf_cell(
                1,
                &schema_record(
                    "table",
                    "companies",
                    "companies",
                    2,
                    "CREATE TABLE companies (id integer primary key, name text, country text)",
                ),
            ),
            leaf_cell(
                2,
                &schema_record(
                    "index",
                    "idx_companies_country",
                    "companies",
                    3,
                    "CREATE INDEX idx_companies_country ON companies (country)",
                ),
            ),
        ],
    );
    let companies = page(
        13,
        0,
        None,
        &[
            leaf_cell(1, &company_record("Atlas", "eritrea")),
            leaf_cell(2, &company_record("Beta", "france")),
            leaf_cell(3, &company_record("Gamma", "eritrea")),
        ],
    );
    let index_root = page(2, 0, Some(5), &[index_interior_cell(4, &country_entry("france", 2))]);
    let index_leaf = page(
        10,
        0,
        None,
        &[
            index_leaf_cell(&country_entry("eritrea", 1)),
            index_leaf_cell(&country_entry("eritrea", 3)),
        ],
    );
    let empty_leaf = page(10, 0, None, &[]);
    db_file(vec![schema, companies, index_root, index_leaf, empty_leaf])
}

#[test]
fn interior_index_descent_also_emits_the_branch_entry() {
    // The descent picks the first interior cell whose key is at least the
    // searched value and emits that cell's rowid as a match even when its
    // key is larger, so the `france` row rides along with the `eritrea`
    // rows.
    let db = DB::new(companies_interior_index_db()).unwrap();
    let sel = Select::parse_select(b"SELECT name FROM companies WHERE country = 'eritrea'")
        .unwrap();
    let rows = db.select(&sel).unwrap();
    assert_eq!(rows, vec![vec![text("Atlas")], vec![text("Beta")], vec![text("Gamma")]]);
}

#[test]
fn dbinfo_counts_all_schema_rows() {
    let db = DB::new(companies_db(true)).unwrap();
    assert_eq!(db.get_schemas().unwrap().len(), 2);
}

#[test]
fn short_file_is_malformed() {
    assert_eq!(DB::new(vec![0u8; 50]).map(|_| ()), Err(DbError::Malformed));
}

#[test]
fn bad_page_kind_is_malformed() {
    let mut file = sample_db();
    file[100] = 7;
    let db = DB::new(file).unwrap();
    assert_eq!(db.tables(), Err(DbError::Malformed));
}

/// A file whose schema calls page 2 an index and page 3 a table, while
/// page 2 is really a table leaf and page 3 an index leaf.
fn crossed_roots_db() -> Vec<u8> {
    let schema = page(
        13,
        100,
        None,
        &[
            leaf_cell(
                1,
                &schema_record(
                    "table",
                    "companies",
                    "companies",
                    3,
                    "CREATE TABLE companies (id integer primary key, name text, country text)",
                ),
            ),
            leaf_cell(
                2,
                &schema_record(
                    "index",
                    "idx_companies_country",
                    "companies",
                    2,
                    "CREATE INDEX idx_companies_country ON companies (country)",
                ),
            ),
        ],
    );
    let table_leaf = page(13, 0, None, &[leaf_cell(1, &company_record("Atlas", "eritrea"))]);
    let index_leaf = page(10, 0, None, &[index_leaf_cell(&country_entry("eritrea", 1))]);
    db_file(vec![schema, table_leaf, index_leaf])
}

#[test]
fn probing_a_table_page_as_an_index_fails() {
    let db = DB::new(crossed_roots_db()).unwrap();
    let sel = Select::parse_select(b"SELECT name FROM companies WHERE country = 'eritrea'")
        .unwrap();
    assert_eq!(db.select(&sel), Err(DbError::NotAnIndex));
}

#[test]
fn scanning_an_index_page_as_a_table_fails() {
    let db = DB::new(crossed_roots_db()).unwrap();
    let sel = Select::parse_select(b"SELECT name FROM companies").unwrap();
    assert_eq!(db.select(&sel), Err(DbError::NotATable));
}

#[test]
fn schema_row_with_bad_shape_fails() {
    // a schema row whose kind column is an integer instead of text
    let bad = {
        let serials = [1, text_serial(1), text_serial(1), 1, 0];
        record(&serials, &[7, b'x', b'x', 2])
    };
    let schema = page(13, 100, None, &[leaf_cell(1, &bad)]);
    let filler = page(13, 0, None, &[]);
    let db = DB::new(db_file(vec![schema, filler])).unwrap();
    assert_eq!(db.tables(), Err(DbError::InvalidSchema));
}

#[test]
fn count_of_interior_root_counts_only_its_own_cells() {
    // COUNT(*) is answered from the root page's cell count alone, so a
    // table whose root is an interior page under-counts
    let db = DB::new(multipage_db()).unwrap();
    assert_eq!(db.count(b"t").unwrap(), 1);
}

#[test]
fn numeric_filter_matches_aliased_rowid() {
    let db = DB::new(sample_db()).unwrap();
    let sel = Select::parse_select(b"SELECT name FROM apples WHERE id = 3").unwrap();
    let rows = db.select(&sel).unwrap();
    assert_eq!(rows, vec![vec![text("Honeycrisp")]]);
}

#[test]
fn select_on_empty_table_is_empty() {
    let schema = page(
        13,
        100,
        None,
        &[leaf_cell(1, &schema_record("table", "t", "t", 2, "CREATE TABLE t (a text)"))],
    );
    let empty = page(13, 0, None, &[]);
    let db = DB::new(db_file(vec![schema, empty])).unwrap();
    let sel = Select::parse_select(b"SELECT a FROM t").unwrap();
    assert_eq!(db.select(&sel).unwrap(), Vec::<Vec<Value>>::new());
}

#[test]
fn select_output_is_identical_across_runs() {
    let db = DB::new(sample_db()).unwrap();
    let sel = Select::parse_select(b"SELECT name, color FROM apples").unwrap();
    let first = db.select(&sel).unwrap();
    let second = db.select(&sel).unwrap();
    assert_eq!(first, second);
}

#[test]
fn tables_excludes_the_internal_sequence_table() {
    let schema = page(
        13,
        100,
        None,
        &[
            leaf_cell(
                1,
                &schema_record("table", "t", "t", 2, "CREATE TABLE t (a text)"),
            ),
            leaf_cell(
                2,
                &schema_record(
                    "table",
                    "sqlite_sequence",
                    "sqlite_sequence",
                    3,
                    "CREATE TABLE sqlite_sequence (name text, seq text)",
                ),
            ),
        ],
    );
    let t_page = page(13, 0, None, &[]);
    let seq_page = page(13, 0, None, &[]);
    let db = DB::new(db_file(vec![schema, t_page, seq_page])).unwrap();
    assert_eq!(db.tables().unwrap(), vec![b"t".to_vec()]);
    // but .dbinfo-style counting sees every schema row
    assert_eq!(db.get_schemas().unwrap().len(), 2);
}
