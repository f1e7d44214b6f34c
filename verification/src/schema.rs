//! The schema catalog: one row per table, index, view or trigger.

use vstd::prelude::*;

use crate::error::DbError;
use crate::record::{SpecValue, Value};
use crate::sql::{
    spec_create_statement, CreateStatement, SpecColumn, SpecCreateStatement,
};

verus! {

/// One row of the schema table.
#[derive(Clone, Debug)]
pub struct Schema {
    pub kind: Vec<u8>,
    pub name: Vec<u8>,
    pub table_name: Vec<u8>,
    pub root_page: u64,
    pub sql: Option<CreateStatement>,
}

/// The mathematical reading of a [`Schema`].
pub struct SpecSchema {
    pub kind: Seq<u8>,
    pub name: Seq<u8>,
    pub table_name: Seq<u8>,
    pub root_page: u64,
    pub sql: Option<SpecCreateStatement>,
}

impl View for Schema {
    type V = SpecSchema;

    open spec fn view(&self) -> SpecSchema {
        SpecSchema {
            kind: self.kind@,
            name: self.name@,
            table_name: self.table_name@,
            root_page: self.root_page,
            sql: match &self.sql {
                Some(c) => Some(c.deep_view()),
                None => None,
            },
        }
    }
}

impl DeepView for Schema {
    type V = SpecSchema;

    open spec fn deep_view(&self) -> SpecSchema {
        self.view()
    }
}

/// The schema described by one row of the schema table: its first three
/// columns are text, the fourth a non-negative integer root page, and the
/// fifth either the text of a create statement or Null.
pub open spec fn spec_schema_of_row(row: Seq<SpecValue>) -> Result<SpecSchema, DbError> {
    if row.len() != 5 {
        Err(DbError::InvalidSchema)
    } else {
        match (row[0], row[1], row[2]) {
            (SpecValue::Text(kind), SpecValue::Text(name), SpecValue::Text(table_name)) => {
                match row[3].integer() {
                    Some(n) => if n < 0 {
                        Err(DbError::InvalidSchema)
                    } else {
                        match row[4] {
                            SpecValue::Text(sql) => match spec_create_statement(sql) {
                                Ok(c) => Ok(
                                    SpecSchema {
                                        kind,
                                        name,
                                        table_name,
                                        root_page: n as u64,
                                        sql: Some(c),
                                    },
                                ),
                                Err(_) => Err(DbError::InvalidSchema),
                            },
                            SpecValue::Null => Ok(
                                SpecSchema { kind, name, table_name, root_page: n as u64, sql: None },
                            ),
                            _ => Err(DbError::InvalidSchema),
                        }
                    },
                    None => Err(DbError::InvalidSchema),
                }
            },
            _ => Err(DbError::InvalidSchema),
        }
    }
}

/// Copies a byte vector.
pub fn clone_bytes(v: &Vec<u8>) -> (r: Vec<u8>)
    ensures
        r@ == v@,
{
    let r = crate::record::copy_range(v.as_slice(), 0, v.len());
    proof {
        assert(r@ =~= v@);
    }
    r
}

impl SpecSchema {
    /// The column names this schema row's create statement declares: the
    /// column names of a created table, or the indexed column names of a
    /// created index.
    pub open spec fn spec_columns(self) -> Result<Seq<Seq<u8>>, DbError> {
        match self.sql {
            None => Err(DbError::InvalidSchema),
            Some(SpecCreateStatement::CreateTable { name, columns }) => Ok(
                Seq::new(columns.len(), |i: int| columns[i].name),
            ),
            Some(SpecCreateStatement::CreateIndex { name, table, columns }) => Ok(columns),
        }
    }
}

impl Schema {
    /// Parses a five-column record of the schema table into a schema row.
    pub fn parse(record: Vec<Value>) -> (r: Result<Schema, DbError>)
        ensures
            match r {
                Ok(s) => spec_schema_of_row(record.deep_view()) == Ok::<SpecSchema, DbError>(
                    s.deep_view(),
                ),
                Err(e) => spec_schema_of_row(record.deep_view()) == Err::<SpecSchema, DbError>(e),
            },
    {
        if record.len() != 5 {
            return Err(DbError::InvalidSchema);
        }
        let kind = match &record[0] {
            Value::Text(b) => clone_bytes(b),
            _ => {
                return Err(DbError::InvalidSchema);
            },
        };
        let name = match &record[1] {
            Value::Text(b) => clone_bytes(b),
            _ => {
                return Err(DbError::InvalidSchema);
            },
        };
        let table_name = match &record[2] {
            Value::Text(b) => clone_bytes(b),
            _ => {
                return Err(DbError::InvalidSchema);
            },
        };
        let root_page: u64 = match record[3].integer_value() {
            Some(n) => if n < 0 {
                return Err(DbError::InvalidSchema);
            } else {
                n as u64
            },
            None => {
                return Err(DbError::InvalidSchema);
            },
        };
        let sql = match &record[4] {
            Value::Text(b) => match CreateStatement::parse(b.as_slice()) {
                Ok(c) => Some(c),
                Err(_) => {
                    return Err(DbError::InvalidSchema);
                },
            },
            Value::Null => None,
            _ => {
                return Err(DbError::InvalidSchema);
            },
        };
        Ok(Schema { kind, name, table_name, root_page, sql })
    }

    /// Returns the column names this schema row declares.
    pub fn columns(&self) -> (r: Result<Vec<Vec<u8>>, DbError>)
        ensures
            match r {
                Ok(cols) => self.deep_view().spec_columns() == Ok::<Seq<Seq<u8>>, DbError>(
                    cols.deep_view(),
                ),
                Err(e) => self.deep_view().spec_columns() == Err::<Seq<Seq<u8>>, DbError>(
                    e,
                ),
            },
    {
        match &self.sql {
            None => Err(DbError::InvalidSchema),
            Some(CreateStatement::CreateTable { name, columns }) => {
                let mut out: Vec<Vec<u8>> = Vec::new();
                let mut i: usize = 0;
                while i < columns.len()
                    invariant
                        i <= columns.len(),
                        out.deep_view() == Seq::new(
                            i as nat,
                            |k: int| columns.deep_view()[k].name,
                        ),
                    decreases columns.len() - i,
                {
                    let nb = clone_bytes(&columns[i].name);
                    let ghost old_out = out.deep_view();
                    let ghost nbv = nb@;
                    out.push(nb);
                    proof {
                        assert(nbv == columns.deep_view()[i as int].name);
                        assert(out.deep_view() =~~= old_out.push(nbv));
                        assert(out.deep_view() =~~= Seq::new(
                            (i + 1) as nat,
                            |k: int| columns.deep_view()[k].name,
                        ));
                    }
                    i = i + 1;
                }
                proof {
                    let spec_cols = self.deep_view().spec_columns().unwrap();
                    assert(out.deep_view() =~~= spec_cols);
                }
                Ok(out)
            },
            Some(CreateStatement::CreateIndex { name, table, columns }) => {
                let mut out: Vec<Vec<u8>> = Vec::new();
                let mut i: usize = 0;
                while i < columns.len()
                    invariant
                        i <= columns.len(),
                        out.deep_view() == Seq::new(i as nat, |k: int| columns.deep_view()[k]),
                    decreases columns.len() - i,
                {
                    let nb = clone_bytes(&columns[i]);
                    let ghost old_out = out.deep_view();
                    let ghost nbv = nb@;
                    out.push(nb);
                    proof {
                        assert(nbv =~= columns.deep_view()[i as int]);
                        assert(out.deep_view() =~~= old_out.push(nbv));
                        assert(out.deep_view() =~~= Seq::new(
                            (i + 1) as nat,
                            |k: int| columns.deep_view()[k],
                        ));
                    }
                    i = i + 1;
                }
                proof {
                    let spec_cols = self.deep_view().spec_columns().unwrap();
                    assert(out.deep_view() =~~= spec_cols);
                }
                Ok(out)
            },
        }
    }
}

} // verus!
