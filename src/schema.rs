//! The schema table: which user tables exist, and where their B-trees are rooted.
use vstd::prelude::*;

use crate::error::DbError;
use crate::record::{spec_value_integer, OwnedValue, Value};

verus! {

/// The bytes of `sqlite_schema`, the name of the schema table.
pub open spec fn schema_table_name() -> Seq<u8> {
    seq![0x73u8, 0x71, 0x6c, 0x69, 0x74, 0x65, 0x5f, 0x73, 0x63, 0x68, 0x65, 0x6d, 0x61]
}

/// The bytes of `sqlite_master`, the schema table's other name.
pub open spec fn master_table_name() -> Seq<u8> {
    seq![0x73u8, 0x71, 0x6c, 0x69, 0x74, 0x65, 0x5f, 0x6d, 0x61, 0x73, 0x74, 0x65, 0x72]
}

/// The bytes of `table`, the kind of a schema row that describes a table.
pub open spec fn table_kind() -> Seq<u8> {
    seq![0x74u8, 0x61, 0x62, 0x6c, 0x65]
}

/// The user table that a schema row `(kind, name, table-name, root-page, sql)`
/// describes: its table name and root page, when its kind is `table`, its table
/// name is a string and its root page a non-negative integer.
pub open spec fn schema_entry(row: Seq<Value<Seq<u8>>>) -> Option<(Seq<u8>, usize)> {
    if row.len() >= 4 && row[0] == Value::String(table_kind()) && row[2] is String
        && spec_value_integer(row[3]) is Some && spec_value_integer(row[3]).unwrap() >= 0
        && spec_value_integer(row[3]).unwrap() <= usize::MAX {
        Some((row[2]->String_0, spec_value_integer(row[3]).unwrap() as usize))
    } else {
        None
    }
}

/// The root page of the first table named `name` among `tables[i..]`.
pub open spec fn find_table(tables: Seq<(Seq<u8>, usize)>, name: Seq<u8>, i: int) -> Option<usize>
    decreases tables.len() - i,
{
    if i < 0 || i >= tables.len() {
        None
    } else if tables[i].0 == name {
        Some(tables[i].1)
    } else {
        find_table(tables, name, i + 1)
    }
}

/// The root page of the table named `name`: page 1 for the schema table under
/// either of its names, else the first listed table of that name.
pub open spec fn spec_root_page(tables: Seq<(Seq<u8>, usize)>, name: Seq<u8>) -> Result<usize, DbError> {
    if name == schema_table_name() || name == master_table_name() {
        Ok(1)
    } else {
        match find_table(tables, name, 0) {
            Some(root) => Ok(root),
            None => Err(DbError::UnknownTable),
        }
    }
}

/// The tables of the database, with their root pages, in the order of the schema
/// table; the schema table itself comes first.
pub struct Schema {
    tables: Vec<(Vec<u8>, usize)>,
}

impl View for Schema {
    type V = Seq<(Seq<u8>, usize)>;

    closed spec fn view(&self) -> Seq<(Seq<u8>, usize)> {
        self.tables@.map_values(|t: (Vec<u8>, usize)| (t.0@, t.1))
    }
}

/// Whether two byte strings are equal.
fn bytes_eq(a: &[u8], b: &[u8]) -> (r: bool)
    ensures
        r == (a@ == b@),
{
    if a.len() != b.len() {
        return false;
    }
    let mut i: usize = 0;
    while i < a.len()
        invariant
            a@.len() == b@.len(),
            i <= a@.len(),
            forall|j: int| 0 <= j < i ==> a@[j] == b@[j],
        decreases a@.len() - i,
    {
        if a[i] != b[i] {
            return false;
        }
        i = i + 1;
    }
    assert(a@ =~= b@);
    true
}

impl Schema {
    /// The schema before any row of the schema table is read: the schema table
    /// itself, rooted at page 1.
    pub fn new() -> (r: Self)
        ensures
            r@ == seq![(schema_table_name(), 1usize)],
    {
        let name: Vec<u8> = vec![
            0x73u8,
            0x71,
            0x6c,
            0x69,
            0x74,
            0x65,
            0x5f,
            0x73,
            0x63,
            0x68,
            0x65,
            0x6d,
            0x61,
        ];
        let mut tables: Vec<(Vec<u8>, usize)> = Vec::new();
        tables.push((name, 1));
        let r = Self { tables };
        assert(r@ =~= seq![(schema_table_name(), 1usize)]);
        r
    }

    /// Takes in one row of the schema table; a row that describes a table adds
    /// that table.
    pub fn add_row(&mut self, row: &[OwnedValue])
        ensures
            final(self)@ == match schema_entry(row@.map_values(|v: OwnedValue| v@)) {
                Some(entry) => old(self)@.push(entry),
                None => old(self)@,
            },
    {
        let ghost model = row@.map_values(|v: OwnedValue| v@);
        if row.len() < 4 {
            return;
        }
        let is_table = match &row[0] {
            Value::String(kind) => kind.len() == 5 && kind[0] == 0x74 && kind[1] == 0x61 && kind[2]
                == 0x62 && kind[3] == 0x6c && kind[4] == 0x65,
            _ => false,
        };
        if !is_table {
            proof {
                if model[0] == Value::<Seq<u8>>::String(table_kind()) {
                    assert(row@[0]@ == model[0]);
                }
            }
            return;
        }
        assert(model[0] == Value::<Seq<u8>>::String(table_kind())) by {
            assert(row@[0]@ == model[0]);
            assert(model[0]->String_0 =~= table_kind());
        }
        let name = match &row[2] {
            Value::String(name) => name.clone(),
            _ => return,
        };
        let root = match row[3].as_integer() {
            Some(n) => n,
            None => return,
        };
        if root < 0 || root as u64 > usize::MAX as u64 {
            return;
        }
        let ghost old_view = self@;
        let ghost entry = (name@, root as usize);
        self.tables.push((name, root as usize));
        assert(self@ =~= old_view.push(entry));
    }

    /// The root page of the table named `name`.
    pub fn root_page(&self, name: &[u8]) -> (r: Result<usize, DbError>)
        ensures
            r == spec_root_page(self@, name@),
    {
        let schema: [u8; 13] = [
            0x73,
            0x71,
            0x6c,
            0x69,
            0x74,
            0x65,
            0x5f,
            0x73,
            0x63,
            0x68,
            0x65,
            0x6d,
            0x61,
        ];
        let master: [u8; 13] = [
            0x73,
            0x71,
            0x6c,
            0x69,
            0x74,
            0x65,
            0x5f,
            0x6d,
            0x61,
            0x73,
            0x74,
            0x65,
            0x72,
        ];
        assert(schema@ =~= schema_table_name());
        assert(master@ =~= master_table_name());
        if bytes_eq(name, schema.as_slice()) || bytes_eq(name, master.as_slice()) {
            return Ok(1);
        }
        let mut i: usize = 0;
        while i < self.tables.len()
            invariant
                i <= self@.len(),
                self@.len() == self.tables@.len(),
                name@ != schema_table_name() && name@ != master_table_name(),
                find_table(self@, name@, 0) == find_table(self@, name@, i as int),
            decreases self@.len() - i,
        {
            if bytes_eq(name, self.tables[i].0.as_slice()) {
                return Ok(self.tables[i].1);
            }
            i = i + 1;
        }
        Err(DbError::UnknownTable)
    }

    /// The names of the tables, in order.
    pub fn table_names(&self) -> (r: Vec<Vec<u8>>)
        ensures
            r@.len() == self@.len(),
            forall|i: int| 0 <= i < r@.len() ==> (#[trigger] r@[i])@ == self@[i].0,
    {
        let mut names: Vec<Vec<u8>> = Vec::new();
        let mut i: usize = 0;
        while i < self.tables.len()
            invariant
                i <= self@.len(),
                self@.len() == self.tables@.len(),
                names@.len() == i,
                forall|j: int| 0 <= j < i ==> (#[trigger] names@[j])@ == self@[j].0,
            decreases self@.len() - i,
        {
            names.push(self.tables[i].0.clone());
            i = i + 1;
        }
        names
    }

    /// The tables with their root pages, in order.
    pub fn tables(&self) -> (r: &[(Vec<u8>, usize)])
        ensures
            r@.len() == self@.len(),
            forall|i: int| 0 <= i < r@.len() ==> ((#[trigger] r@[i]).0@, r@[i].1) == self@[i],
    {
        self.tables.as_slice()
    }
}

} // verus!
