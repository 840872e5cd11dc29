//! The catalog: the schema of every table, looked up by table name.

use vstd::prelude::*;
use vstd::hash_map::StringHashMap;
use crate::strings::str_eq;
use crate::storage::tuple::TUPLE_HEADER_SIZE;

verus! {

/// The storage class of a column, as its type name gives it.
#[derive(Clone, Copy, Debug, PartialEq, Eq, Structural)]
pub enum ColumnKind {
    /// `int`: four bytes, big-endian, signed.
    Int,
    /// `text`: one length byte and 255 payload bytes.
    Text,
    /// Any other type name; such a column occupies no bytes and cannot be stored.
    Unknown,
}

/// The name of the integer column type.
pub open spec fn int_type_name() -> Seq<char> {
    "int"@
}

/// The name of the text column type.
pub open spec fn text_type_name() -> Seq<char> {
    "text"@
}

/// The storage class that a type name stands for.
pub open spec fn kind_of(types: Seq<char>) -> ColumnKind {
    if types == int_type_name() {
        ColumnKind::Int
    } else if types == text_type_name() {
        ColumnKind::Text
    } else {
        ColumnKind::Unknown
    }
}

/// The number of bytes that a column of the given kind occupies in a tuple.
pub open spec fn kind_width(kind: ColumnKind) -> nat {
    match kind {
        ColumnKind::Int => 4,
        ColumnKind::Text => 256,
        ColumnKind::Unknown => 0,
    }
}

/// A column of a table: its name and the name of its type.
#[derive(Debug)]
pub struct Column {
    pub types: String,
    pub name: String,
}

impl Column {
    /// The storage class of this column.
    pub open spec fn spec_kind(&self) -> ColumnKind {
        kind_of(self.types@)
    }

    /// The number of bytes this column occupies in a tuple.
    pub open spec fn spec_width(&self) -> nat {
        kind_width(self.spec_kind())
    }

    /// The storage class of this column.
    pub fn kind(&self) -> (k: ColumnKind)
        ensures
            k == self.spec_kind(),
    {
        if str_eq(self.types.as_str(), "int") {
            ColumnKind::Int
        } else if str_eq(self.types.as_str(), "text") {
            ColumnKind::Text
        } else {
            ColumnKind::Unknown
        }
    }
}

impl Clone for Column {
    fn clone(&self) -> (r: Self)
        ensures
            r == *self,
    {
        Column { types: self.types.clone(), name: self.name.clone() }
    }
}

/// The total width of the given columns, in bytes.
pub open spec fn columns_width(columns: Seq<Column>) -> nat
    decreases columns.len(),
{
    if columns.len() == 0 {
        0
    } else {
        columns_width(columns.drop_last()) + columns.last().spec_width()
    }
}

/// The width of a column list is at most 256 bytes per column, and grows
/// with the list.
pub proof fn lemma_columns_width_bounds(columns: Seq<Column>, n: int)
    requires
        0 <= n <= columns.len(),
    ensures
        columns_width(columns.take(n)) <= columns_width(columns),
        columns_width(columns) <= 256 * columns.len(),
    decreases columns.len(),
{
    if columns.len() > 0 {
        if n == columns.len() {
            assert(columns.take(n) =~= columns);
            lemma_columns_width_bounds(columns.drop_last(), n - 1);
        } else {
            assert(columns.drop_last().take(n) =~= columns.take(n));
            lemma_columns_width_bounds(columns.drop_last(), n);
        }
    } else {
        assert(columns.take(n) =~= columns);
    }
}

/// A table: its name and its columns, in declared order.
#[derive(Debug)]
pub struct Table {
    pub name: String,
    pub columns: Vec<Column>,
}

impl Table {
    /// The size of one tuple of this table: the tuple header and every column.
    pub open spec fn spec_tuple_size(&self) -> nat {
        TUPLE_HEADER_SIZE as nat + columns_width(self.columns@)
    }

    /// The size of one tuple of this table, or `None` where it exceeds `limit`.
    pub fn tuple_size_within(&self, limit: usize) -> (r: Option<usize>)
        ensures
            r == if self.spec_tuple_size() <= limit {
                Some(self.spec_tuple_size() as usize)
            } else {
                None
            },
    {
        if limit < TUPLE_HEADER_SIZE {
            return None;
        }
        let mut size: usize = TUPLE_HEADER_SIZE;
        let mut i: usize = 0;
        while i < self.columns.len()
            invariant
                i <= self.columns.len(),
                size == TUPLE_HEADER_SIZE + columns_width(self.columns@.take(i as int)),
                size <= limit,
            decreases self.columns.len() - i,
        {
            let width: usize = match self.columns[i].kind() {
                ColumnKind::Int => 4,
                ColumnKind::Text => 256,
                ColumnKind::Unknown => 0,
            };
            proof {
                assert(self.columns@.take(i + 1).drop_last() =~= self.columns@.take(i as int));
                lemma_columns_width_bounds(self.columns@, i + 1);
            }
            if width > limit - size {
                return None;
            }
            size = size + width;
            i += 1;
        }
        assert(self.columns@.take(i as int) =~= self.columns@);
        Some(size)
    }

    /// The size of one tuple of this table: 8 bytes of header, 4 for each
    /// `int` column and 256 for each `text` column.
    pub fn tuple_size(&self) -> (size: usize)
        requires
            self.spec_tuple_size() <= usize::MAX,
        ensures
            size == self.spec_tuple_size(),
    {
        match self.tuple_size_within(usize::MAX) {
            Some(size) => size,
            None => 0,
        }
    }
}

impl Clone for Table {
    fn clone(&self) -> (r: Self)
        ensures
            r.name == self.name,
            r.columns@ == self.columns@,
    {
        let mut columns: Vec<Column> = Vec::new();
        let mut i: usize = 0;
        while i < self.columns.len()
            invariant
                i <= self.columns.len(),
                columns@ == self.columns@.take(i as int),
            decreases self.columns.len() - i,
        {
            columns.push(self.columns[i].clone());
            assert(self.columns@.take(i + 1) =~= self.columns@.take(i as int).push(self.columns@[i as int]));
            i += 1;
        }
        assert(self.columns@.take(i as int) =~= self.columns@);
        Table { name: self.name.clone(), columns }
    }
}

/// The schema of one table.
#[derive(Debug)]
pub struct Schema {
    pub table: Table,
}

impl Clone for Schema {
    fn clone(&self) -> (r: Self)
        ensures
            r.table.name == self.table.name,
            r.table.columns@ == self.table.columns@,
    {
        Schema { table: self.table.clone() }
    }
}

/// What an attribute value is, as a mathematical value.
pub enum AttributeView {
    Int(i32),
    Text(Seq<char>),
}

/// The value of one attribute of a tuple.
#[derive(Debug)]
pub enum AttributeType {
    Int(i32),
    Text(String),
}

impl View for AttributeType {
    type V = AttributeView;

    open spec fn view(&self) -> AttributeView {
        match self {
            AttributeType::Int(v) => AttributeView::Int(*v),
            AttributeType::Text(s) => AttributeView::Text(s@),
        }
    }
}

impl Clone for AttributeType {
    fn clone(&self) -> (r: Self)
        ensures
            r@ == self@,
    {
        match self {
            AttributeType::Int(v) => AttributeType::Int(*v),
            AttributeType::Text(s) => AttributeType::Text(s.clone()),
        }
    }
}

impl PartialEq for AttributeType {
    fn eq(&self, other: &Self) -> (r: bool) {
        match (self, other) {
            (AttributeType::Int(a), AttributeType::Int(b)) => *a == *b,
            (AttributeType::Text(a), AttributeType::Text(b)) => str_eq(a.as_str(), b.as_str()),
            _ => false,
        }
    }
}

impl vstd::std_specs::cmp::PartialEqSpecImpl for AttributeType {
    open spec fn obeys_eq_spec() -> bool {
        true
    }

    open spec fn eq_spec(&self, other: &Self) -> bool {
        self@ == other@
    }
}

/// The index of the last of the schemas whose table has the given name.
pub open spec fn table_index(schemas: Seq<Schema>, name: Seq<char>) -> Option<int>
    decreases schemas.len(),
{
    if schemas.len() == 0 {
        None
    } else if schemas.last().table.name@ == name {
        Some(schemas.len() - 1)
    } else {
        table_index(schemas.drop_last(), name)
    }
}

/// The index of a table is that of a schema with the table's name; a name
/// that no schema carries has no index.
pub proof fn lemma_table_index(schemas: Seq<Schema>, name: Seq<char>)
    ensures
        match table_index(schemas, name) {
            Some(i) => 0 <= i < schemas.len() && schemas[i].table.name@ == name,
            None => forall|i: int| 0 <= i < schemas.len() ==> schemas[i].table.name@ != name,
        },
    decreases schemas.len(),
{
    if schemas.len() > 0 {
        lemma_table_index(schemas.drop_last(), name);
        if schemas.last().table.name@ != name {
            match table_index(schemas.drop_last(), name) {
                Some(i) => {
                    assert(schemas.drop_last()[i] == schemas[i]);
                },
                None => {
                    assert forall|i: int| 0 <= i < schemas.len() implies schemas[i].table.name@
                        != name by {
                        if i < schemas.len() - 1 {
                            assert(schemas.drop_last()[i] == schemas[i]);
                        }
                    }
                },
            }
        }
    }
}

/// The schemas of all tables, and an index of them by table name.
pub struct Catalog {
    schemas: Vec<Schema>,
    map: StringHashMap<usize>,
}

impl Catalog {
    #[verifier::type_invariant]
    spec fn indexed(self) -> bool {
        forall|name: Seq<char>|
            (#[trigger] self.map@.contains_key(name) <==> table_index(self.schemas@, name) is Some)
                && (self.map@.contains_key(name) ==> self.map@[name] == table_index(
                self.schemas@,
                name,
            )->Some_0)
    }

    /// The schemas, in the order in which they were given.
    pub closed spec fn spec_schemas(&self) -> Seq<Schema> {
        self.schemas@
    }

    /// The index of the schema of the table `name`.
    pub open spec fn spec_table_id(&self, name: Seq<char>) -> Option<int> {
        table_index(self.spec_schemas(), name)
    }

    /// A catalog of the given schemas. Of two schemas with one table name
    /// the later one is found by name.
    pub fn new(schemas: Vec<Schema>) -> (r: Self)
        ensures
            r.spec_schemas() == schemas@,
    {
        let mut map: StringHashMap<usize> = StringHashMap::new();
        let mut i: usize = 0;
        while i < schemas.len()
            invariant
                i <= schemas.len(),
                forall|name: Seq<char>|
                    (#[trigger] map@.contains_key(name) <==> table_index(
                        schemas@.take(i as int),
                        name,
                    ) is Some) && (map@.contains_key(name) ==> map@[name] == table_index(
                        schemas@.take(i as int),
                        name,
                    )->Some_0),
            decreases schemas.len() - i,
        {
            proof {
                assert(schemas@.take(i + 1).drop_last() =~= schemas@.take(i as int));
            }
            map.insert(schemas[i].table.name.clone(), i);
            i += 1;
        }
        assert(schemas@.take(i as int) =~= schemas@);
        Catalog { schemas, map }
    }

    /// The schemas, in the order in which they were given.
    pub fn schemas(&self) -> (r: &Vec<Schema>)
        ensures
            r@ == self.spec_schemas(),
    {
        &self.schemas
    }

    /// The index of the schema of the table `table_name`, if the catalog
    /// has the table.
    pub fn table_id(&self, table_name: &str) -> (r: Option<usize>)
        ensures
            match r {
                Some(i) => self.spec_table_id(table_name@) == Some(i as int) && i
                    < self.spec_schemas().len(),
                None => self.spec_table_id(table_name@) is None,
            },
    {
        proof {
            use_type_invariant(self);
            lemma_table_index(self.schemas@, table_name@);
        }
        match self.map.get(table_name) {
            Some(i) => Some(*i),
            None => None,
        }
    }

    /// The schema with the given index.
    pub fn schema_at(&self, i: usize) -> (r: &Schema)
        requires
            i < self.spec_schemas().len(),
        ensures
            *r == self.spec_schemas()[i as int],
    {
        &self.schemas[i]
    }

    /// The schema of the table `table_name`, if the catalog has the table.
    pub fn get_schema_by_table_name(&self, table_name: &str) -> (r: Option<&Schema>)
        ensures
            match r {
                Some(schema) => self.spec_table_id(table_name@) is Some && *schema
                    == self.spec_schemas()[self.spec_table_id(table_name@)->Some_0]
                    && schema.table.name@ == table_name@,
                None => self.spec_table_id(table_name@) is None,
            },
    {
        proof {
            lemma_table_index(self.schemas@, table_name@);
        }
        match self.table_id(table_name) {
            Some(i) => Some(&self.schemas[i]),
            None => None,
        }
    }

    /// Whether the catalog has the table `table_name`.
    pub fn exist_table(&self, table_name: &str) -> (r: bool)
        ensures
            r == self.spec_table_id(table_name@) is Some,
    {
        self.table_id(table_name).is_some()
    }
}

impl Clone for Catalog {
    fn clone(&self) -> (r: Self)
        ensures
            r.spec_schemas().len() == self.spec_schemas().len(),
            forall|i: int|
                0 <= i < self.spec_schemas().len() ==> (#[trigger] r.spec_schemas()[i]).table.name
                    == self.spec_schemas()[i].table.name && r.spec_schemas()[i].table.columns@
                    == self.spec_schemas()[i].table.columns@,
    {
        let mut schemas: Vec<Schema> = Vec::new();
        let mut i: usize = 0;
        while i < self.schemas.len()
            invariant
                i <= self.schemas.len(),
                schemas@.len() == i,
                forall|j: int|
                    0 <= j < i ==> (#[trigger] schemas@[j]).table.name == self.schemas@[j].table.name
                        && schemas@[j].table.columns@ == self.schemas@[j].table.columns@,
            decreases self.schemas.len() - i,
        {
            schemas.push(self.schemas[i].clone());
            i += 1;
        }
        Catalog::new(schemas)
    }
}

} // verus!
