use vstd::prelude::*;

verus! {

/// The declared type of a table column.
#[derive(Clone, Copy, PartialEq, Eq, Structural)]
pub enum DataType {
    Text,
    Integer,
    Boolean,
}

/// A typed column value. `Null` is a distinct value, not "missing".
#[derive(PartialEq, Eq, Debug)]
pub enum DataValue {
    Text(String),
    Integer(i32),
    Boolean(bool),
    Null,
}

impl Clone for DataValue {
    fn clone(&self) -> (r: Self)
        ensures
            r == *self,
    {
        match self {
            DataValue::Text(s) => DataValue::Text(s.clone()),
            DataValue::Integer(i) => DataValue::Integer(*i),
            DataValue::Boolean(b) => DataValue::Boolean(*b),
            DataValue::Null => DataValue::Null,
        }
    }
}

impl DataValue {
    /// A value is accepted by a declared type when its tag matches the type,
    /// or when it is `Null`, which every column accepts.
    pub open spec fn spec_matches_type(self, t: DataType) -> bool {
        match self {
            DataValue::Text(_) => t is Text,
            DataValue::Integer(_) => t is Integer,
            DataValue::Boolean(_) => t is Boolean,
            DataValue::Null => true,
        }
    }

    pub fn matches_type(&self, t: &DataType) -> (r: bool)
        ensures
            r == self.spec_matches_type(*t),
    {
        match self {
            DataValue::Text(_) => *t == DataType::Text,
            DataValue::Integer(_) => *t == DataType::Integer,
            DataValue::Boolean(_) => *t == DataType::Boolean,
            DataValue::Null => true,
        }
    }
}

/// The declared shape of one column.
pub struct ColumnDefinition {
    pub data_type: DataType,
}

impl Clone for ColumnDefinition {
    fn clone(&self) -> (r: Self)
        ensures
            r == *self,
    {
        ColumnDefinition { data_type: self.data_type.clone() }
    }
}

/// One named column of a table schema.
pub struct NamedColumn {
    pub column_name: String,
    pub definition: ColumnDefinition,
}

impl Clone for NamedColumn {
    fn clone(&self) -> (r: Self)
        ensures
            r == *self,
    {
        NamedColumn { column_name: self.column_name.clone(), definition: self.definition.clone() }
    }
}

/// The declared type of the named column, read from the back of the list so
/// that the latest declaration of a name would win; well-formed schemas
/// declare each name once.
pub open spec fn lookup_col(s: Seq<NamedColumn>, n: Seq<char>) -> Option<DataType>
    decreases s.len(),
{
    if s.len() == 0 {
        None
    } else if s.last().column_name@ == n {
        Some(s.last().definition.data_type)
    } else {
        lookup_col(s.drop_last(), n)
    }
}

/// A table's name, its columns, and the ordered list of primary-key columns.
pub struct TableSchema {
    pub table_name: String,
    pub columns: Vec<NamedColumn>,
    pub primary_key_columns: Vec<String>,
}

/// A lawful schema shape: each column name is declared once, and every
/// primary-key column is among the declared columns.
pub open spec fn schema_shape_wf(cols: Seq<NamedColumn>, pks: Seq<String>) -> bool {
    &&& forall|i: int, j: int|
        0 <= i < j < cols.len() ==> cols[i].column_name@ != cols[j].column_name@
    &&& forall|k: int| 0 <= k < pks.len() ==> lookup_col(cols, pks[k]@) is Some
}

impl TableSchema {
    /// Each column name is declared once, and every primary-key column is
    /// among the declared columns.
    pub open spec fn wf(self) -> bool {
        schema_shape_wf(self.columns@, self.primary_key_columns@)
    }

    /// A copy whose name, columns and primary key read the same.
    pub fn clone_schema(&self) -> (r: TableSchema)
        ensures
            r.table_name@ == self.table_name@,
            r.columns@ == self.columns@,
            r.primary_key_columns@ == self.primary_key_columns@,
    {
        let mut columns: Vec<NamedColumn> = Vec::new();
        proof {
            assert(self.columns@.take(0) =~= Seq::<NamedColumn>::empty());
        }
        let mut i: usize = 0;
        while i < self.columns.len()
            invariant
                i <= self.columns@.len(),
                columns@ == self.columns@.take(i as int),
            decreases self.columns@.len() - i,
        {
            columns.push(self.columns[i].clone());
            proof {
                assert(self.columns@.take(i + 1).drop_last() =~= self.columns@.take(i as int));
            }
            i += 1;
        }
        let mut primary_key_columns: Vec<String> = Vec::new();
        proof {
            assert(self.primary_key_columns@.take(0) =~= Seq::<String>::empty());
            assert(self.columns@.take(self.columns@.len() as int) =~= self.columns@);
        }
        let mut j: usize = 0;
        while j < self.primary_key_columns.len()
            invariant
                j <= self.primary_key_columns@.len(),
                primary_key_columns@ == self.primary_key_columns@.take(j as int),
            decreases self.primary_key_columns@.len() - j,
        {
            primary_key_columns.push(self.primary_key_columns[j].clone());
            proof {
                assert(self.primary_key_columns@.take(j + 1).drop_last()
                    =~= self.primary_key_columns@.take(j as int));
            }
            j += 1;
        }
        proof {
            assert(self.primary_key_columns@.take(self.primary_key_columns@.len() as int)
                =~= self.primary_key_columns@);
        }
        TableSchema { table_name: self.table_name.clone(), columns, primary_key_columns }
    }

    /// The declared type of the named column, if the schema has it.
    pub fn find_column_type(&self, name: &String) -> (r: Option<DataType>)
        ensures
            r == lookup_col(self.columns@, name@),
    {
        proof {
            assert(self.columns@.take(self.columns@.len() as int) =~= self.columns@);
        }
        let mut i: usize = self.columns.len();
        while i > 0
            invariant
                i <= self.columns.len(),
                lookup_col(self.columns@, name@) == lookup_col(
                    self.columns@.take(i as int),
                    name@,
                ),
            decreases i,
        {
            proof {
                assert(self.columns@.take(i as int).last() == self.columns@[i - 1]);
                assert(self.columns@.take(i as int).drop_last() =~= self.columns@.take(i - 1));
            }
            if self.columns[i - 1].column_name == *name {
                return Some(self.columns[i - 1].definition.data_type.clone());
            }
            i -= 1;
        }
        proof {
            assert(self.columns@.take(0) =~= Seq::<NamedColumn>::empty());
        }
        None
    }
}

} // verus!
