//! Tuples: a header of 8 bytes and a body laid out by the table's columns.

use vstd::prelude::*;
use vstd::utf8::*;
use crate::catalog::{columns_width, AttributeType, AttributeView, Column, ColumnKind};
use crate::storage::endian::{be_bytes_i32, i32_of_be_bytes, lemma_be_i32_round_trip, push_be_i32, read_be_i32};
use crate::storage::StorageError;
use crate::strings::{copy_range, push_all, push_zeros, str_eq, string_from_utf8, zeros};

verus! {

/// The size of a tuple's header, in bytes.
pub const TUPLE_HEADER_SIZE: usize = 8;

/// The longest text that a column stores, in bytes.
pub const TEXT_MAX: usize = 255;

/// The attributes of a tuple, by column name.
#[derive(Debug)]
pub struct Attributes {
    items: Vec<(String, AttributeType)>,
}

/// The map from names to values that `items` lists; of two entries with one
/// name the later one counts.
pub open spec fn entries_map(items: Seq<(String, AttributeType)>) -> Map<Seq<char>, AttributeView>
    decreases items.len(),
{
    if items.len() == 0 {
        Map::empty()
    } else {
        entries_map(items.drop_last()).insert(items.last().0@, items.last().1@)
    }
}

/// Whether `i` is the last entry of `items` under `name`.
pub open spec fn is_last_entry(items: Seq<(String, AttributeType)>, name: Seq<char>, i: int) -> bool {
    &&& 0 <= i < items.len()
    &&& items[i].0@ == name
    &&& forall|j: int| i < j < items.len() ==> items[j].0@ != name
}

/// A name that no entry carries is not in the map.
pub proof fn lemma_entries_map_absent(items: Seq<(String, AttributeType)>, name: Seq<char>)
    requires
        forall|j: int| 0 <= j < items.len() ==> items[j].0@ != name,
    ensures
        !entries_map(items).contains_key(name),
    decreases items.len(),
{
    if items.len() > 0 {
        lemma_entries_map_absent(items.drop_last(), name);
    }
}

/// The map holds, under a name, the value of the last entry with that name.
pub proof fn lemma_entries_map_at(items: Seq<(String, AttributeType)>, name: Seq<char>, i: int)
    requires
        is_last_entry(items, name, i),
    ensures
        entries_map(items).contains_key(name),
        entries_map(items)[name] == items[i].1@,
    decreases items.len(),
{
    if i < items.len() - 1 {
        lemma_entries_map_at(items.drop_last(), name, i);
    }
}

/// Replacing the last entry under a name stores the new value under it.
pub proof fn lemma_entries_map_update(
    items: Seq<(String, AttributeType)>,
    i: int,
    entry: (String, AttributeType),
)
    requires
        is_last_entry(items, entry.0@, i),
    ensures
        entries_map(items.update(i, entry)) == entries_map(items).insert(entry.0@, entry.1@),
    decreases items.len(),
{
    let after = items.update(i, entry);
    if i == items.len() - 1 {
        assert(after.drop_last() =~= items.drop_last());
        assert(entries_map(after) =~= entries_map(items).insert(entry.0@, entry.1@));
    } else {
        assert(after.drop_last() =~= items.drop_last().update(i, entry));
        lemma_entries_map_update(items.drop_last(), i, entry);
        assert(entries_map(after) =~= entries_map(items).insert(entry.0@, entry.1@));
    }
}

/// The name of every entry is in the map.
pub proof fn lemma_entries_map_contains(items: Seq<(String, AttributeType)>, i: int)
    requires
        0 <= i < items.len(),
    ensures
        entries_map(items).contains_key(items[i].0@),
    decreases items.len(),
{
    if i < items.len() - 1 {
        lemma_entries_map_contains(items.drop_last(), i);
    }
}

/// A name in the map is the name of some entry.
pub proof fn lemma_entries_map_has_entry(items: Seq<(String, AttributeType)>, name: Seq<char>)
    requires
        entries_map(items).contains_key(name),
    ensures
        exists|i: int| 0 <= i < items.len() && #[trigger] items[i].0@ == name,
{
    if forall|j: int| 0 <= j < items.len() ==> items[j].0@ != name {
        lemma_entries_map_absent(items, name);
    }
}

impl View for Attributes {
    type V = Map<Seq<char>, AttributeView>;

    closed spec fn view(&self) -> Map<Seq<char>, AttributeView> {
        entries_map(self.items@)
    }
}

impl Attributes {
    /// The entries, in the order in which their names were first inserted.
    pub closed spec fn entries(&self) -> Seq<(String, AttributeType)> {
        self.items@
    }

    /// No attributes.
    pub fn new() -> (r: Self)
        ensures
            r@ == Map::<Seq<char>, AttributeView>::empty(),
            r.entries().len() == 0,
    {
        Attributes { items: Vec::new() }
    }

    /// The number of entries. The view is the map that the entries list.
    pub fn len(&self) -> (n: usize)
        ensures
            n == self.entries().len(),
            self@ == entries_map(self.entries()),
    {
        self.items.len()
    }

    /// The name of the `i`-th entry.
    pub fn name_at(&self, i: usize) -> (name: &String)
        requires
            i < self.entries().len(),
        ensures
            *name == self.entries()[i as int].0,
    {
        &self.items[i].0
    }

    /// The value of the `i`-th entry.
    pub fn value_at(&self, i: usize) -> (value: &AttributeType)
        requires
            i < self.entries().len(),
        ensures
            *value == self.entries()[i as int].1,
    {
        &self.items[i].1
    }

    /// Whether every entry of `self` has the same value in `other`.
    fn included_in(&self, other: &Attributes) -> (r: bool)
        ensures
            r == self@.submap_of(other@),
    {
        let mut i: usize = 0;
        while i < self.items.len()
            invariant
                i <= self.items.len(),
                forall|j: int|
                    0 <= j < i ==> other@.contains_key(#[trigger] self.items@[j].0@)
                        && other@[self.items@[j].0@] == self@[self.items@[j].0@],
            decreases self.items.len() - i,
        {
            let name = self.items[i].0.as_str();
            proof {
                lemma_entries_map_contains(self.items@, i as int);
            }
            let same = match (self.get(name), other.get(name)) {
                (Some(a), Some(b)) => a.eq(b),
                _ => false,
            };
            if !same {
                assert(self@.contains_key(self.items@[i as int].0@));
                return false;
            }
            i += 1;
        }
        proof {
            assert forall|name: Seq<char>| #[trigger] self@.dom().contains(name) implies other@.dom().contains(name)
                && self@[name] == other@[name] by {
                lemma_entries_map_has_entry(self.items@, name);
                let j = choose|j: int| 0 <= j < self.items@.len() && #[trigger] self.items@[j].0@ == name;
                assert(other@.contains_key(self.items@[j].0@));
                assert(other@.contains_key(name));
                assert(self@[name] == other@[name]);
            }
            assert(self@.submap_of(other@));
        }
        true
    }

    fn position(&self, name: &str) -> (r: Option<usize>)
        ensures
            match r {
                Some(i) => is_last_entry(self.items@, name@, i as int),
                None => forall|j: int| 0 <= j < self.items@.len() ==> self.items@[j].0@ != name@,
            },
    {
        let mut i: usize = self.items.len();
        while i > 0
            invariant
                i <= self.items.len(),
                forall|j: int| i <= j < self.items@.len() ==> self.items@[j].0@ != name@,
            decreases i,
        {
            i -= 1;
            if str_eq(self.items[i].0.as_str(), name) {
                return Some(i);
            }
        }
        None
    }

    /// The value stored under `name`, if there is one.
    pub fn get(&self, name: &str) -> (r: Option<&AttributeType>)
        ensures
            match r {
                Some(value) => self@.contains_key(name@) && value@ == self@[name@],
                None => !self@.contains_key(name@),
            },
    {
        match self.position(name) {
            Some(i) => {
                proof {
                    lemma_entries_map_at(self.items@, name@, i as int);
                }
                Some(&self.items[i].1)
            },
            None => {
                proof {
                    lemma_entries_map_absent(self.items@, name@);
                }
                None
            },
        }
    }

    /// Stores `value` under `name`, in place of the value that was there.
    pub fn insert(&mut self, name: String, value: AttributeType)
        ensures
            final(self)@ == old(self)@.insert(name@, value@),
    {
        match self.position(name.as_str()) {
            Some(i) => {
                proof {
                    lemma_entries_map_update(self.items@, i as int, (name, value));
                }
                self.items[i] = (name, value);
            },
            None => {
                self.items.push((name, value));
                assert(self.items@.drop_last() =~= old(self).items@);
            },
        }
    }
}

impl Clone for Attributes {
    fn clone(&self) -> (r: Self)
        ensures
            r@ == self@,
    {
        let mut items: Vec<(String, AttributeType)> = Vec::new();
        let mut i: usize = 0;
        while i < self.items.len()
            invariant
                i <= self.items.len(),
                entries_map(items@) == entries_map(self.items@.take(i as int)),
            decreases self.items.len() - i,
        {
            let ghost before = items@;
            items.push((self.items[i].0.clone(), self.items[i].1.clone()));
            proof {
                assert(items@.drop_last() =~= before);
                assert(self.items@.take(i + 1).drop_last() =~= self.items@.take(i as int));
            }
            i += 1;
        }
        assert(self.items@.take(i as int) =~= self.items@);
        Attributes { items }
    }
}

impl PartialEq for Attributes {
    fn eq(&self, other: &Self) -> (r: bool) {
        let r = self.included_in(other) && other.included_in(self);
        proof {
            if r {
                assert forall|name: Seq<char>| self@.dom().contains(name) == other@.dom().contains(
                    name,
                ) by {}
                assert(self@.dom() =~= other@.dom());
                assert(self@ =~= other@);
            }
        }
        r
    }
}

impl vstd::std_specs::cmp::PartialEqSpecImpl for Attributes {
    open spec fn obeys_eq_spec() -> bool {
        true
    }

    open spec fn eq_spec(&self, other: &Self) -> bool {
        self@ == other@
    }
}

/// Whether a value can be stored in a column of the given kind: an integer
/// in an `int` column, a text of at most 255 bytes in a `text` column.
pub open spec fn attribute_fits(kind: ColumnKind, value: AttributeView) -> bool {
    match (kind, value) {
        (ColumnKind::Int, AttributeView::Int(_)) => true,
        (ColumnKind::Text, AttributeView::Text(s)) => encode_utf8(s).len() <= TEXT_MAX,
        _ => false,
    }
}

/// The bytes of a value: four big-endian bytes for an integer; for a text
/// its length in bytes, its UTF-8 bytes, and zeros up to 255 payload bytes.
pub open spec fn attribute_image(value: AttributeView) -> Seq<u8> {
    match value {
        AttributeView::Int(v) => be_bytes_i32(v),
        AttributeView::Text(s) => seq![encode_utf8(s).len() as u8] + encode_utf8(s) + zeros(
            (TEXT_MAX - encode_utf8(s).len()) as nat,
        ),
    }
}

/// The value that a column of the given kind holds in `field`, the column's
/// bytes. Of a text only the bytes that the length byte declares count.
pub open spec fn attribute_of_image(kind: ColumnKind, field: Seq<u8>) -> Option<AttributeView> {
    match kind {
        ColumnKind::Int => Some(AttributeView::Int(i32_of_be_bytes(field))),
        ColumnKind::Text => {
            let payload = field.subrange(1, 1 + field[0] as int);
            if valid_utf8(payload) {
                Some(AttributeView::Text(decode_utf8(payload)))
            } else {
                None
            }
        },
        ColumnKind::Unknown => None,
    }
}

/// Whether the attributes hold, for every column, a value that fits it.
pub open spec fn body_fits(columns: Seq<Column>, attributes: Map<Seq<char>, AttributeView>) -> bool {
    forall|i: int|
        0 <= i < columns.len() ==> attributes.contains_key(#[trigger] columns[i].name@)
            && attribute_fits(columns[i].spec_kind(), attributes[columns[i].name@])
}

/// The bytes of a tuple's body: the values of the columns, in declared order.
pub open spec fn body_image(columns: Seq<Column>, attributes: Map<Seq<char>, AttributeView>) -> Seq<u8>
    decreases columns.len(),
{
    if columns.len() == 0 {
        Seq::empty()
    } else {
        body_image(columns.drop_last(), attributes) + attribute_image(
            attributes[columns.last().name@],
        )
    }
}

/// The attributes that the body bytes `raw` hold for the given columns, or
/// `None` where `raw` is too short, a text is not UTF-8 or a column's type is
/// unknown.
pub open spec fn body_of_image(columns: Seq<Column>, raw: Seq<u8>) -> Option<Map<Seq<char>, AttributeView>>
    decreases columns.len(),
{
    if columns.len() == 0 {
        Some(Map::empty())
    } else {
        let from = columns_width(columns.drop_last()) as int;
        let to = columns_width(columns) as int;
        match body_of_image(columns.drop_last(), raw) {
            None => None,
            Some(m) => if raw.len() < to {
                None
            } else {
                match attribute_of_image(columns.last().spec_kind(), raw.subrange(from, to)) {
                    None => None,
                    Some(value) => Some(m.insert(columns.last().name@, value)),
                }
            },
        }
    }
}

/// The set of the columns' names.
pub open spec fn column_names(columns: Seq<Column>) -> Set<Seq<char>> {
    Set::new(|name: Seq<char>| exists|i: int| 0 <= i < columns.len() && columns[i].name@ == name)
}

/// The image of a value that fits a column is as wide as the column.
pub proof fn lemma_attribute_image_len(kind: ColumnKind, value: AttributeView)
    requires
        attribute_fits(kind, value),
    ensures
        attribute_image(value).len() == crate::catalog::kind_width(kind),
{
    match value {
        AttributeView::Int(v) => {
            lemma_be_i32_round_trip(v);
        },
        AttributeView::Text(s) => {},
    }
}

/// Reading back the image of a value that fits a column gives the value.
pub proof fn lemma_attribute_round_trip(kind: ColumnKind, value: AttributeView)
    requires
        attribute_fits(kind, value),
    ensures
        attribute_of_image(kind, attribute_image(value)) == Some(value),
{
    let image = attribute_image(value);
    match value {
        AttributeView::Int(v) => {
            lemma_be_i32_round_trip(v);
        },
        AttributeView::Text(s) => {
            let bytes = encode_utf8(s);
            assert(image[0] == bytes.len());
            assert(image.subrange(1, 1 + image[0] as int) =~= bytes);
            encode_utf8_valid_utf8(s);
            encode_utf8_decode_utf8(s);
        },
    }
}

/// The body image of attributes that fit the columns is as wide as the
/// columns.
pub proof fn lemma_body_image_len(columns: Seq<Column>, attributes: Map<Seq<char>, AttributeView>)
    requires
        body_fits(columns, attributes),
    ensures
        body_image(columns, attributes).len() == columns_width(columns),
    decreases columns.len(),
{
    if columns.len() > 0 {
        let rest = columns.drop_last();
        assert forall|i: int| 0 <= i < rest.len() implies attributes.contains_key(
            #[trigger] rest[i].name@,
        ) && attribute_fits(rest[i].spec_kind(), attributes[rest[i].name@]) by {
            assert(rest[i] == columns[i]);
        }
        lemma_body_image_len(rest, attributes);
        let last = columns.last();
        assert(last == columns[columns.len() - 1]);
        assert(attributes.contains_key(columns[columns.len() - 1].name@));
        lemma_attribute_image_len(last.spec_kind(), attributes[last.name@]);
    }
}

/// What a body image holds depends only on its first bytes, as many as the
/// columns are wide.
pub proof fn lemma_body_of_image_prefix(columns: Seq<Column>, raw: Seq<u8>, other: Seq<u8>)
    requires
        raw.len() >= columns_width(columns),
        other.len() >= columns_width(columns),
        raw.take(columns_width(columns) as int) == other.take(columns_width(columns) as int),
    ensures
        body_of_image(columns, raw) == body_of_image(columns, other),
    decreases columns.len(),
{
    if columns.len() > 0 {
        let rest = columns.drop_last();
        let from = columns_width(rest) as int;
        let to = columns_width(columns) as int;
        assert(raw.take(from) =~= raw.take(to).take(from));
        assert(other.take(from) =~= other.take(to).take(from));
        lemma_body_of_image_prefix(rest, raw, other);
        assert(raw.subrange(from, to) =~= raw.take(to).subrange(from, to));
        assert(other.subrange(from, to) =~= other.take(to).subrange(from, to));
    }
}

/// Reading back the body image of attributes that fit the columns gives the
/// attributes of the columns.
#[verifier::rlimit(50)]
pub proof fn lemma_body_round_trip(columns: Seq<Column>, attributes: Map<Seq<char>, AttributeView>)
    requires
        body_fits(columns, attributes),
    ensures
        body_of_image(columns, body_image(columns, attributes)) == Some(
            attributes.restrict(column_names(columns)),
        ),
    decreases columns.len(),
{
    let image = body_image(columns, attributes);
    if columns.len() == 0 {
        assert(attributes.restrict(column_names(columns)) =~= Map::empty());
    } else {
        let rest = columns.drop_last();
        let last = columns.last();
        assert forall|i: int| 0 <= i < rest.len() implies attributes.contains_key(
            #[trigger] rest[i].name@,
        ) && attribute_fits(rest[i].spec_kind(), attributes[rest[i].name@]) by {
            assert(rest[i] == columns[i]);
        }
        assert(last == columns[columns.len() - 1]);
        assert(attributes.contains_key(columns[columns.len() - 1].name@));
        let head = body_image(rest, attributes);
        let field = attribute_image(attributes[last.name@]);
        lemma_body_round_trip(rest, attributes);
        lemma_body_image_len(rest, attributes);
        lemma_body_image_len(columns, attributes);
        lemma_attribute_round_trip(last.spec_kind(), attributes[last.name@]);
        assert(image.take(head.len() as int) =~= head);
        assert(head.take(head.len() as int) =~= head);
        lemma_body_of_image_prefix(rest, image, head);
        assert(image.subrange(head.len() as int, image.len() as int) =~= field);
        let m = attributes.restrict(column_names(rest));
        assert(m.insert(last.name@, attributes[last.name@]) =~= attributes.restrict(
            column_names(columns),
        )) by {
            assert forall|name: Seq<char>| column_names(columns).contains(name) == (column_names(
                rest,
            ).contains(name) || name == last.name@) by {
                if column_names(columns).contains(name) {
                    let i = choose|i: int| 0 <= i < columns.len() && columns[i].name@ == name;
                    if i < rest.len() {
                        assert(rest[i].name@ == name);
                    }
                }
                if column_names(rest).contains(name) {
                    let i = choose|i: int| 0 <= i < rest.len() && rest[i].name@ == name;
                    assert(columns[i].name@ == name);
                }
            }
        }
    }
}

/// A failure to read a prefix of the columns is a failure to read them all.
pub proof fn lemma_body_of_image_fails(columns: Seq<Column>, raw: Seq<u8>, n: int)
    requires
        0 <= n <= columns.len(),
        body_of_image(columns.take(n), raw) is None,
    ensures
        body_of_image(columns, raw) is None,
    decreases columns.len(),
{
    if n == columns.len() {
        assert(columns.take(n) =~= columns);
    } else {
        assert(columns.drop_last().take(n) =~= columns.take(n));
        lemma_body_of_image_fails(columns.drop_last(), raw, n);
    }
}

/// The header of a tuple: the deletion flag and seven reserved bytes.
#[derive(Debug)]
pub struct TupleHeader {
    pub deleted: u8,
}

impl TupleHeader {
    /// Reads the header from the first byte of `raw`.
    pub fn fill(&mut self, raw: &[u8])
        requires
            raw@.len() >= 1,
        ensures
            final(self).deleted == raw@[0],
    {
        self.deleted = raw[0];
    }

    /// The eight bytes of the header.
    pub fn raw(&self) -> (r: Vec<u8>)
        ensures
            r@ == seq![self.deleted] + zeros(7),
    {
        let mut r: Vec<u8> = Vec::new();
        r.push(self.deleted);
        push_zeros(&mut r, TUPLE_HEADER_SIZE - 1);
        assert(r@ =~= seq![self.deleted] + zeros(7));
        r
    }
}

impl Default for TupleHeader {
    fn default() -> (r: Self)
        ensures
            r.deleted == 0,
    {
        TupleHeader { deleted: 0 }
    }
}

/// The body of a tuple: its attributes.
#[derive(Debug)]
pub struct TupleBody {
    pub attributes: Attributes,
}

impl View for TupleBody {
    type V = Map<Seq<char>, AttributeView>;

    open spec fn view(&self) -> Map<Seq<char>, AttributeView> {
        self.attributes@
    }
}

impl Default for TupleBody {
    fn default() -> (r: Self)
        ensures
            r@ == Map::<Seq<char>, AttributeView>::empty(),
    {
        TupleBody { attributes: Attributes::new() }
    }
}

impl TupleBody {
    /// Reads the attributes of the given columns from `raw` and makes them
    /// the body. Where `raw` does not hold them, the body stays as it is.
    pub fn fill(&mut self, raw: &[u8], columns: &Vec<Column>) -> (r: Result<(), StorageError>)
        ensures
            match r {
                Ok(_) => body_of_image(columns@, raw@) == Some(final(self)@),
                Err(e) => e == StorageError::InvalidImage && body_of_image(columns@, raw@) is None
                    && *final(self) == *old(self),
            },
    {
        let mut attributes = Attributes::new();
        let mut offset: usize = 0;
        let mut i: usize = 0;
        while i < columns.len()
            invariant
                i <= columns.len(),
                offset <= raw@.len(),
                offset == columns_width(columns@.take(i as int)),
                body_of_image(columns@.take(i as int), raw@) == Some(attributes@),
            decreases columns.len() - i,
        {
            let column = &columns[i];
            let ghost prefix = columns@.take(i + 1);
            proof {
                assert(prefix.drop_last() =~= columns@.take(i as int));
                assert(prefix.last() == columns@[i as int]);
            }
            let value = match column.kind() {
                ColumnKind::Int => {
                    if raw.len() - offset < 4 {
                        proof {
                            lemma_body_of_image_fails(columns@, raw@, i + 1);
                        }
                        return Err(StorageError::InvalidImage);
                    }
                    let v = read_be_i32(raw, offset);
                    offset = offset + 4;
                    AttributeType::Int(v)
                },
                ColumnKind::Text => {
                    if raw.len() - offset < TEXT_MAX + 1 {
                        proof {
                            lemma_body_of_image_fails(columns@, raw@, i + 1);
                        }
                        return Err(StorageError::InvalidImage);
                    }
                    let length: usize = raw[offset] as usize;
                    let payload = copy_range(raw, offset + 1, offset + 1 + length);
                    proof {
                        let field = raw@.subrange(offset as int, offset + TEXT_MAX + 1);
                        assert(field.subrange(1, 1 + field[0] as int) =~= payload@);
                    }
                    match string_from_utf8(payload) {
                        Some(text) => {
                            offset = offset + TEXT_MAX + 1;
                            AttributeType::Text(text)
                        },
                        None => {
                            proof {
                                lemma_body_of_image_fails(columns@, raw@, i + 1);
                            }
                            return Err(StorageError::InvalidImage);
                        },
                    }
                },
                ColumnKind::Unknown => {
                    proof {
                        lemma_body_of_image_fails(columns@, raw@, i + 1);
                    }
                    return Err(StorageError::InvalidImage);
                },
            };
            attributes.insert(column.name.clone(), value);
            i += 1;
        }
        assert(columns@.take(i as int) =~= columns@);
        self.attributes = attributes;
        Ok(())
    }

    /// The bytes of the body for the given columns: for each column, in
    /// declared order, the image of the attribute of that name.
    pub fn raw(&self, columns: &Vec<Column>) -> (r: Result<Vec<u8>, StorageError>)
        ensures
            match r {
                Ok(bytes) => body_fits(columns@, self@) && bytes@ == body_image(columns@, self@),
                Err(e) => e == StorageError::InvalidTuple && !body_fits(columns@, self@),
            },
    {
        let mut bytes: Vec<u8> = Vec::new();
        let mut i: usize = 0;
        while i < columns.len()
            invariant
                i <= columns.len(),
                body_fits(columns@.take(i as int), self@),
                bytes@ == body_image(columns@.take(i as int), self@),
            decreases columns.len() - i,
        {
            let column = &columns[i];
            let ghost prefix = columns@.take(i + 1);
            proof {
                assert(prefix.drop_last() =~= columns@.take(i as int));
                assert(prefix.last() == columns@[i as int]);
            }
            let fits = match (column.kind(), self.attributes.get(column.name.as_str())) {
                (ColumnKind::Int, Some(AttributeType::Int(v))) => {
                    push_be_i32(&mut bytes, *v);
                    true
                },
                (ColumnKind::Text, Some(AttributeType::Text(text))) => {
                    let payload = text.as_str().as_bytes();
                    if payload.len() <= TEXT_MAX {
                        bytes.push(payload.len() as u8);
                        push_all(&mut bytes, payload);
                        push_zeros(&mut bytes, TEXT_MAX - payload.len());
                        proof {
                            assert(bytes@ =~= body_image(columns@.take(i as int), self@)
                                + attribute_image(AttributeView::Text(text@)));
                        }
                        true
                    } else {
                        false
                    }
                },
                _ => false,
            };
            if !fits {
                assert(!(self@.contains_key(columns@[i as int].name@) && attribute_fits(
                    columns@[i as int].spec_kind(),
                    self@[columns@[i as int].name@],
                )));
                return Err(StorageError::InvalidTuple);
            }
            proof {
                assert forall|j: int| 0 <= j < prefix.len() implies self@.contains_key(
                    #[trigger] prefix[j].name@,
                ) && attribute_fits(prefix[j].spec_kind(), self@[prefix[j].name@]) by {
                    if j < i {
                        assert(columns@.take(i as int)[j] == prefix[j]);
                    }
                }
            }
            i += 1;
        }
        assert(columns@.take(i as int) =~= columns@);
        Ok(bytes)
    }
}

/// What a tuple is: its deletion flag and its attributes by column name.
pub struct TupleView {
    pub deleted: u8,
    pub attributes: Map<Seq<char>, AttributeView>,
}

/// The bytes of a tuple: the header, then the body.
pub open spec fn tuple_image(columns: Seq<Column>, tuple: TupleView) -> Seq<u8> {
    seq![tuple.deleted] + zeros(7) + body_image(columns, tuple.attributes)
}

/// The tuple that `raw` holds for the given columns, or `None` where `raw`
/// is too short or its body cannot be read.
pub open spec fn tuple_of_image(columns: Seq<Column>, raw: Seq<u8>) -> Option<TupleView> {
    if raw.len() < TUPLE_HEADER_SIZE {
        None
    } else {
        match body_of_image(columns, raw.subrange(TUPLE_HEADER_SIZE as int, raw.len() as int)) {
            None => None,
            Some(attributes) => Some(TupleView { deleted: raw[0], attributes }),
        }
    }
}

/// Reading back the image of a tuple whose attributes are those of the
/// columns, each fitting its column, gives the tuple.
pub proof fn lemma_tuple_round_trip(columns: Seq<Column>, tuple: TupleView)
    requires
        body_fits(columns, tuple.attributes),
        tuple.attributes.dom() =~= column_names(columns),
    ensures
        tuple_image(columns, tuple).len() == TUPLE_HEADER_SIZE + columns_width(columns),
        tuple_of_image(columns, tuple_image(columns, tuple)) == Some(tuple),
{
    let image = tuple_image(columns, tuple);
    let body = body_image(columns, tuple.attributes);
    lemma_body_image_len(columns, tuple.attributes);
    lemma_body_round_trip(columns, tuple.attributes);
    assert(image.subrange(TUPLE_HEADER_SIZE as int, image.len() as int) =~= body);
    assert(tuple.attributes.restrict(column_names(columns)) =~= tuple.attributes);
}

/// What is read back of a tuple that was written for the given columns:
/// the attributes of the columns, and no others.
pub open spec fn stored_tuple(columns: Seq<Column>, tuple: TupleView) -> TupleView {
    TupleView { deleted: tuple.deleted, attributes: tuple.attributes.restrict(column_names(columns)) }
}

/// The body image of attributes depends only on the attributes of the
/// columns.
pub proof fn lemma_body_image_of_stored(columns: Seq<Column>, attributes: Map<Seq<char>, AttributeView>)
    requires
        body_fits(columns, attributes),
    ensures
        body_fits(columns, attributes.restrict(column_names(columns))),
        body_image(columns, attributes.restrict(column_names(columns))) == body_image(
            columns,
            attributes,
        ),
{
    let stored = attributes.restrict(column_names(columns));
    assert forall|i: int| 0 <= i < columns.len() implies stored.contains_key(
        #[trigger] columns[i].name@,
    ) && stored[columns[i].name@] == attributes[columns[i].name@] by {
        assert(column_names(columns).contains(columns[i].name@));
    }
    lemma_body_image_agrees(columns, attributes, stored, columns.len() as int);
    assert(columns.take(columns.len() as int) =~= columns);
}

/// Attributes that agree on the columns have the same body image.
pub proof fn lemma_body_image_agrees(
    columns: Seq<Column>,
    a: Map<Seq<char>, AttributeView>,
    b: Map<Seq<char>, AttributeView>,
    n: int,
)
    requires
        0 <= n <= columns.len(),
        forall|i: int| 0 <= i < columns.len() ==> a[#[trigger] columns[i].name@] == b[columns[i].name@],
    ensures
        body_image(columns.take(n), a) == body_image(columns.take(n), b),
    decreases n,
{
    if n > 0 {
        assert(columns.take(n).drop_last() =~= columns.take(n - 1));
        assert(columns.take(n).last() == columns[n - 1]);
        lemma_body_image_agrees(columns, a, b, n - 1);
    }
}

/// Reading back the image of a tuple that fits the columns gives the
/// tuple's deletion flag and its attributes of the columns; and that tuple
/// has the same image.
pub proof fn lemma_tuple_image_decodes(columns: Seq<Column>, tuple: TupleView)
    requires
        body_fits(columns, tuple.attributes),
    ensures
        tuple_image(columns, tuple).len() == TUPLE_HEADER_SIZE + columns_width(columns),
        tuple_of_image(columns, tuple_image(columns, tuple)) == Some(stored_tuple(columns, tuple)),
        body_fits(columns, stored_tuple(columns, tuple).attributes),
        tuple_image(columns, stored_tuple(columns, tuple)) == tuple_image(columns, tuple),
{
    let image = tuple_image(columns, tuple);
    let body = body_image(columns, tuple.attributes);
    lemma_body_image_len(columns, tuple.attributes);
    lemma_body_round_trip(columns, tuple.attributes);
    lemma_body_image_of_stored(columns, tuple.attributes);
    assert(image.subrange(TUPLE_HEADER_SIZE as int, image.len() as int) =~= body);
}

/// A tuple: a header and a body.
#[derive(Debug)]
pub struct Tuple {
    pub header: TupleHeader,
    pub body: TupleBody,
}

impl View for Tuple {
    type V = TupleView;

    open spec fn view(&self) -> TupleView {
        TupleView { deleted: self.header.deleted, attributes: self.body@ }
    }
}

impl Default for Tuple {
    fn default() -> (r: Self)
        ensures
            r@ == (TupleView { deleted: 0, attributes: Map::empty() }),
    {
        Tuple { header: TupleHeader::default(), body: TupleBody::default() }
    }
}

impl Tuple {
    /// A tuple that is not deleted and has no attributes.
    pub fn new() -> (r: Self)
        ensures
            r@ == (TupleView { deleted: 0, attributes: Map::empty() }),
    {
        Tuple { header: TupleHeader { deleted: 0 }, body: TupleBody::default() }
    }

    /// Reads the tuple from `raw`: the header from the first 8 bytes, the
    /// attributes of the given columns from the bytes after them. Where
    /// `raw` does not hold such a tuple, the tuple stays as it is.
    pub fn fill(&mut self, raw: &[u8], columns: &Vec<Column>) -> (r: Result<(), StorageError>)
        ensures
            match r {
                Ok(_) => tuple_of_image(columns@, raw@) == Some(final(self)@),
                Err(e) => e == StorageError::InvalidImage && tuple_of_image(columns@, raw@) is None
                    && *final(self) == *old(self),
            },
    {
        if raw.len() < TUPLE_HEADER_SIZE {
            return Err(StorageError::InvalidImage);
        }
        let body = vstd::slice::slice_subrange(raw, TUPLE_HEADER_SIZE, raw.len());
        match self.body.fill(body, columns) {
            Ok(_) => {
                self.header.fill(raw);
                Ok(())
            },
            Err(e) => Err(e),
        }
    }

    /// Stores `types` as the attribute `name`.
    pub fn add_attribute(&mut self, name: &str, types: AttributeType)
        ensures
            final(self)@ == (TupleView {
                deleted: old(self)@.deleted,
                attributes: old(self)@.attributes.insert(name@, types@),
            }),
    {
        self.body.attributes.insert(name.to_owned(), types);
    }

    /// The bytes of the tuple for the given columns: the header, then the
    /// body.
    pub fn raw(&self, columns: &Vec<Column>) -> (r: Result<Vec<u8>, StorageError>)
        ensures
            match r {
                Ok(bytes) => body_fits(columns@, self@.attributes) && bytes@ == tuple_image(
                    columns@,
                    self@,
                ),
                Err(e) => e == StorageError::InvalidTuple && !body_fits(columns@, self@.attributes),
            },
    {
        let mut bytes = self.header.raw();
        match self.body.raw(columns) {
            Ok(body) => {
                push_all(&mut bytes, body.as_slice());
                Ok(bytes)
            },
            Err(e) => Err(e),
        }
    }
}

} // verus!
