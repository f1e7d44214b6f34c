//! Tests of the SQL parser.

use sqlite_reader::error::DbError;
use sqlite_reader::numeric::Literal;
use sqlite_reader::sql::{CreateStatement, Select};

#[test]
fn select_single_column() {
    let sel = Select::parse_select(b"SELECT name FROM apples").unwrap();
    assert_eq!(sel.columns, vec![b"name".to_vec()]);
    assert_eq!(sel.table, b"apples".to_vec());
    assert!(sel.filter.is_none());
}

#[test]
fn select_many_columns_and_sloppy_spacing() {
    let sel = Select::parse_select(b"select  name ,color,  id   from apples").unwrap();
    assert_eq!(
        sel.columns,
        vec![b"name".to_vec(), b"color".to_vec(), b"id".to_vec()]
    );
    assert_eq!(sel.table, b"apples".to_vec());
}

#[test]
fn select_with_text_filter() {
    let sel = Select::parse_select(b"SELECT name FROM apples WHERE color = 'Yellow'").unwrap();
    let (col, lit) = sel.filter.unwrap();
    assert_eq!(col, b"color".to_vec());
    assert!(matches!(lit, Literal::Text(t) if t == b"Yellow".to_vec()));
}

#[test]
fn select_with_numeric_filters() {
    let sel = Select::parse_select(b"SELECT name FROM apples WHERE id = 3").unwrap();
    let (_, lit) = sel.filter.unwrap();
    assert!(matches!(
        lit,
        Literal::Num { neg: false, mantissa: 3, scale: 0 }
    ));
    let sel = Select::parse_select(b"SELECT name FROM apples WHERE price = -12.25").unwrap();
    let (_, lit) = sel.filter.unwrap();
    assert!(matches!(
        lit,
        Literal::Num { neg: true, mantissa: 1225, scale: 2 }
    ));
}

#[test]
fn select_rejects_broken_queries() {
    assert_eq!(
        Select::parse_select(b"ELECT name FROM apples").map(|_| ()),
        Err(DbError::SqlSyntax)
    );
    assert_eq!(
        Select::parse_select(b"SELECT name apples").map(|_| ()),
        Err(DbError::SqlSyntax)
    );
    assert_eq!(
        Select::parse_select(b"SELECT name FROM apples WHERE color = ").map(|_| ()),
        Err(DbError::SqlSyntax)
    );
    assert_eq!(
        Select::parse_select(b"SELECT name FROM apples WHERE color = 'unterminated").map(|_| ()),
        Err(DbError::SqlSyntax)
    );
}

#[test]
fn select_ignores_trailing_bytes() {
    let sel = Select::parse_select(b"SELECT name FROM apples garbage here").unwrap();
    assert_eq!(sel.table, b"apples".to_vec());
    assert!(sel.filter.is_none());
}

#[test]
fn create_table_parses_columns_and_primary_key() {
    let c = CreateStatement::parse(
        b"CREATE TABLE apples (id integer primary key autoincrement, name text, \"quoted col\" text not null, bare)",
    )
    .unwrap();
    match c {
        CreateStatement::CreateTable { name, columns } => {
            assert_eq!(name, b"apples".to_vec());
            assert_eq!(columns.len(), 4);
            assert_eq!(columns[0].name, b"id".to_vec());
            assert_eq!(columns[0].data_type, Some(b"integer".to_vec()));
            assert!(columns[0].is_primary_key);
            assert_eq!(columns[1].name, b"name".to_vec());
            assert!(!columns[1].is_primary_key);
            assert_eq!(columns[2].name, b"quoted col".to_vec());
            assert_eq!(columns[3].name, b"bare".to_vec());
            assert_eq!(columns[3].data_type, None);
        },
        _ => panic!("expected a created table"),
    }
}

#[test]
fn create_table_reads_not_as_a_type_when_no_type_is_given() {
    // a column written `a not null` reads `not` as the data type and then
    // fails to close, mirroring the grammar's greedy type word
    assert_eq!(
        CreateStatement::parse(b"CREATE TABLE t (a not null)").map(|_| ()),
        Err(DbError::SqlSyntax)
    );
}

#[test]
fn create_index_parses_name_table_and_columns() {
    let c = CreateStatement::parse(
        b"CREATE INDEX idx_companies_country ON companies (country)",
    )
    .unwrap();
    match c {
        CreateStatement::CreateIndex { name, table, columns } => {
            assert_eq!(name, b"idx_companies_country".to_vec());
            assert_eq!(table, b"companies".to_vec());
            assert_eq!(columns, vec![b"country".to_vec()]);
        },
        _ => panic!("expected a created index"),
    }
}

#[test]
fn create_index_with_many_columns() {
    let c = CreateStatement::parse(b"create index i on t (a, b,c)").unwrap();
    match c {
        CreateStatement::CreateIndex { columns, .. } => {
            assert_eq!(columns, vec![b"a".to_vec(), b"b".to_vec(), b"c".to_vec()]);
        },
        _ => panic!("expected a created index"),
    }
}

#[test]
fn create_statement_rejects_garbage() {
    assert_eq!(
        CreateStatement::parse(b"DROP TABLE apples").map(|_| ()),
        Err(DbError::SqlSyntax)
    );
    assert_eq!(
        CreateStatement::parse(b"CREATE TABLE apples").map(|_| ()),
        Err(DbError::SqlSyntax)
    );
}
