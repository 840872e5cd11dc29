//! The query parser: `select * from <table>;`,
//! `insert into <table> ( column=value ... );` and `exit;`.

use vstd::prelude::*;
use vstd::string::*;
use vstd::utf8::*;
use crate::catalog::{AttributeType, AttributeView, Catalog, Column, ColumnKind};
use crate::storage::tuple::Attributes;
use crate::strings::{bytes_eq, copy_range, str_eq, string_from_utf8};

verus! {

/// Why a query was not understood.
#[derive(Clone, Copy, Debug, PartialEq, Eq, Structural)]
pub enum ParseError {
    /// The query does not end with `;`.
    MissingSemicolon,
    /// The query starts with a word other than `select`, `insert` and
    /// `exit`.
    UnknownVerb,
    /// The words of the query are not those of its form, an attribute is
    /// not of the form `column=value`, or a column is given twice.
    Malformed,
    /// The catalog lacks the table.
    UnknownTable,
    /// A column of the table is not given.
    MissingColumn,
    /// A value is not of its column's type: no number for an `int` column,
    /// no quoted text for a `text` column.
    TypeMismatch,
}

/// The parts of `s` between the separators `sep`. A sequence without a
/// separator is one part; two separators in a row enclose an empty part.
pub open spec fn split(s: Seq<u8>, sep: u8) -> Seq<Seq<u8>>
    decreases s.len(),
{
    if s.len() == 0 {
        seq![Seq::empty()]
    } else {
        let parts = split(s.drop_last(), sep);
        if s.last() == sep {
            parts.push(Seq::empty())
        } else {
            parts.update(parts.len() - 1, parts.last().push(s.last()))
        }
    }
}

/// `split` gives at least one part.
pub proof fn lemma_split_len(s: Seq<u8>, sep: u8)
    ensures
        split(s, sep).len() >= 1,
    decreases s.len(),
{
    if s.len() > 0 {
        lemma_split_len(s.drop_last(), sep);
    }
}

/// The byte sequences that the given vectors hold.
pub open spec fn parts_view(parts: Seq<Vec<u8>>) -> Seq<Seq<u8>> {
    Seq::new(parts.len(), |i: int| parts[i]@)
}

/// The parts of `bytes` between the separators `sep`.
pub fn split_bytes(bytes: &[u8], sep: u8) -> (parts: Vec<Vec<u8>>)
    ensures
        parts_view(parts@) == split(bytes@, sep),
{
    let mut parts: Vec<Vec<u8>> = Vec::new();
    let mut current: Vec<u8> = Vec::new();
    let mut i: usize = 0;
    assert(parts_view(parts@).push(current@) =~= split(bytes@.take(0), sep));
    while i < bytes.len()
        invariant
            i <= bytes.len(),
            parts_view(parts@).push(current@) == split(bytes@.take(i as int), sep),
        decreases bytes.len() - i,
    {
        let ghost before = parts_view(parts@).push(current@);
        proof {
            assert(bytes@.take(i + 1).drop_last() =~= bytes@.take(i as int));
        }
        if bytes[i] == sep {
            parts.push(current);
            current = Vec::new();
            assert(parts_view(parts@).push(current@) =~= before.push(Seq::empty()));
        } else {
            current.push(bytes[i]);
            assert(parts_view(parts@).push(current@) =~= before.update(
                before.len() - 1,
                before.last().push(bytes@[i as int]),
            ));
        }
        i += 1;
    }
    assert(bytes@.take(i as int) =~= bytes@);
    let ghost before = parts_view(parts@).push(current@);
    parts.push(current);
    assert(parts_view(parts@) =~= before);
    parts
}

/// Whether `b` is a decimal digit.
pub open spec fn is_digit(b: u8) -> bool {
    48 <= b <= 57
}

/// Whether every byte of `s` is a decimal digit.
pub open spec fn all_digits(s: Seq<u8>) -> bool {
    forall|i: int| 0 <= i < s.len() ==> is_digit(#[trigger] s[i])
}

/// The number that the decimal digits `s` write.
pub open spec fn digits_value(s: Seq<u8>) -> nat
    decreases s.len(),
{
    if s.len() == 0 {
        0
    } else {
        (digits_value(s.drop_last()) * 10 + (s.last() - 48)) as nat
    }
}

/// The number that `s` writes: an optional sign, then one decimal digit or
/// more; `None` where `s` is not of that form or the number is no `i32`.
pub open spec fn number_of(s: Seq<u8>) -> Option<i32> {
    let negative = s.len() > 0 && s[0] == 45;
    let signed = s.len() > 0 && (s[0] == 45 || s[0] == 43);
    let digits = if signed {
        s.subrange(1, s.len() as int)
    } else {
        s
    };
    signed_number(negative, digits)
}

/// The number that the decimal digits `digits` write, negated where
/// `negative`; `None` where there is no digit, a byte is no digit, or the
/// number is no `i32`.
pub open spec fn signed_number(negative: bool, digits: Seq<u8>) -> Option<i32> {
    let value = if negative {
        -(digits_value(digits) as int)
    } else {
        digits_value(digits) as int
    };
    if digits.len() == 0 || !all_digits(digits) || value < i32::MIN || value > i32::MAX {
        None
    } else {
        Some(value as i32)
    }
}

/// More digits write no smaller a number.
pub proof fn lemma_digits_value_grows(s: Seq<u8>, n: int)
    requires
        0 <= n <= s.len(),
        all_digits(s),
    ensures
        digits_value(s.take(n)) <= digits_value(s),
    decreases s.len() - n,
{
    if n < s.len() {
        assert(s.take(n + 1).drop_last() =~= s.take(n));
        assert(is_digit(s[n]));
        assert(s.take(n + 1).last() == s[n]);
        lemma_digits_value_grows(s, n + 1);
    } else {
        assert(s.take(n) =~= s);
    }
}

/// Reads a number: an optional sign, then one decimal digit or more.
#[verifier::rlimit(50)]
pub fn parse_number(s: &[u8]) -> (r: Option<i32>)
    ensures
        r == number_of(s@),
{
    let n = s.len();
    let negative = n > 0 && s[0] == 45;
    let start: usize = if n > 0 && (s[0] == 45 || s[0] == 43) {
        1
    } else {
        0
    };
    let ghost digits = s@.subrange(start as int, n as int);
    proof {
        if start == 0 {
            assert(digits =~= s@);
        }
    }
    if start == n {
        return None;
    }
    let mut value: i64 = 0;
    let mut i: usize = start;
    while i < n
        invariant
            start <= i <= n,
            n == s@.len(),
            digits == s@.subrange(start as int, n as int),
            number_of(s@) == signed_number(negative, digits),
            all_digits(digits.take(i - start)),
            value == digits_value(digits.take(i - start)),
            0 <= value <= 0x8000_0000,
        decreases n - i,
    {
        let b = s[i];
        proof {
            assert(digits.take(i + 1 - start).drop_last() =~= digits.take(i - start));
            assert(digits.take(i + 1 - start).last() == b);
        }
        if b < 48 || b > 57 {
            assert(!is_digit(digits[i - start]));
            return None;
        }
        value = value * 10 + (b - 48) as i64;
        proof {
            assert forall|j: int| 0 <= j < digits.take(i + 1 - start).len() implies is_digit(
                #[trigger] digits.take(i + 1 - start)[j],
            ) by {
                if j < i - start {
                    assert(digits.take(i - start)[j] == digits.take(i + 1 - start)[j]);
                }
            }
        }
        if value > 0x8000_0000 {
            proof {
                if all_digits(digits) {
                    lemma_digits_value_grows(digits, i + 1 - start);
                }
            }
            return None;
        }
        i += 1;
    }
    proof {
        assert(digits.take(i - start) =~= digits);
    }
    if negative {
        Some((-value) as i32)
    } else if value > 0x7fff_ffff {
        None
    } else {
        Some(value as i32)
    }
}

/// The bytes of a word of the query language.
pub open spec fn word(s: Seq<char>) -> Seq<u8> {
    encode_utf8(s)
}

/// A query, as mathematical values.
pub enum QueryView {
    Select { table_name: Seq<char> },
    Insert { table_name: Seq<char>, attributes: Map<Seq<char>, AttributeView> },
    Exit,
}

/// The table that the bytes `name` name: its index in the catalog.
pub open spec fn table_named(catalog: Catalog, name: Seq<u8>) -> Result<int, ParseError> {
    if !valid_utf8(name) {
        Err(ParseError::UnknownTable)
    } else {
        match catalog.spec_table_id(decode_utf8(name)) {
            Some(t) => Ok(t),
            None => Err(ParseError::UnknownTable),
        }
    }
}

/// The query that the words of a `select` are: `select * from <table>`.
pub open spec fn select_of(catalog: Catalog, tokens: Seq<Seq<u8>>) -> Result<QueryView, ParseError> {
    if tokens.len() != 4 || tokens[1] != word("*"@) || tokens[2] != word("from"@) {
        Err(ParseError::Malformed)
    } else {
        match table_named(catalog, tokens[3]) {
            Err(e) => Err(e),
            Ok(_) => Ok(QueryView::Select { table_name: decode_utf8(tokens[3]) }),
        }
    }
}

/// The name and the value of an attribute `name=value`.
pub open spec fn pair_of(token: Seq<u8>) -> Option<(Seq<u8>, Seq<u8>)> {
    let parts = split(token, 61);
    if parts.len() == 2 {
        Some((parts[0], parts[1]))
    } else {
        None
    }
}

/// The names and values of the given attributes, or `None` where one of
/// them is not of the form `name=value`.
pub open spec fn pairs_of(tokens: Seq<Seq<u8>>) -> Option<Seq<(Seq<u8>, Seq<u8>)>>
    decreases tokens.len(),
{
    if tokens.len() == 0 {
        Some(Seq::empty())
    } else {
        match (pairs_of(tokens.drop_last()), pair_of(tokens.last())) {
            (Some(pairs), Some(pair)) => Some(pairs.push(pair)),
            _ => None,
        }
    }
}

/// How many of the pairs have the name `name`.
pub open spec fn occurrences(pairs: Seq<(Seq<u8>, Seq<u8>)>, name: Seq<u8>) -> nat
    decreases pairs.len(),
{
    if pairs.len() == 0 {
        0
    } else if pairs.last().0 == name {
        occurrences(pairs.drop_last(), name) + 1
    } else {
        occurrences(pairs.drop_last(), name)
    }
}

/// The value of the last of the pairs with the name `name`.
pub open spec fn value_named(pairs: Seq<(Seq<u8>, Seq<u8>)>, name: Seq<u8>) -> Seq<u8>
    decreases pairs.len(),
{
    if pairs.len() == 0 {
        Seq::empty()
    } else if pairs.last().0 == name {
        pairs.last().1
    } else {
        value_named(pairs.drop_last(), name)
    }
}

/// The text that a quoted value holds between its single quotes.
pub open spec fn text_of(value: Seq<u8>) -> Option<Seq<char>> {
    let inner = value.subrange(1, value.len() - 1);
    if value.len() >= 2 && value[0] == 39 && value.last() == 39 && valid_utf8(inner) {
        Some(decode_utf8(inner))
    } else {
        None
    }
}

/// The value that the bytes `value` write for a column of the given kind:
/// a bare number for an `int` column, a quoted text for a `text` column.
pub open spec fn value_of(kind: ColumnKind, value: Seq<u8>) -> Option<AttributeView> {
    match kind {
        ColumnKind::Int => match number_of(value) {
            Some(n) => Some(AttributeView::Int(n)),
            None => None,
        },
        ColumnKind::Text => match text_of(value) {
            Some(text) => Some(AttributeView::Text(text)),
            None => None,
        },
        ColumnKind::Unknown => None,
    }
}

/// The attributes of a tuple of the given columns, taken from the given
/// pairs: each column must be named by exactly one pair, whose value must
/// be of the column's type. The first column at fault decides the error.
pub open spec fn attributes_of(columns: Seq<Column>, pairs: Seq<(Seq<u8>, Seq<u8>)>) -> Result<
    Map<Seq<char>, AttributeView>,
    ParseError,
>
    decreases columns.len(),
{
    if columns.len() == 0 {
        Ok(Map::empty())
    } else {
        match attributes_of(columns.drop_last(), pairs) {
            Err(e) => Err(e),
            Ok(attributes) => {
                let column = columns.last();
                let name = encode_utf8(column.name@);
                if occurrences(pairs, name) == 0 {
                    Err(ParseError::MissingColumn)
                } else if occurrences(pairs, name) > 1 {
                    Err(ParseError::Malformed)
                } else {
                    match value_of(column.spec_kind(), value_named(pairs, name)) {
                        None => Err(ParseError::TypeMismatch),
                        Some(value) => Ok(attributes.insert(column.name@, value)),
                    }
                }
            },
        }
    }
}

/// The query that the words of an `insert` are:
/// `insert into <table> ( column=value ... )`, with one attribute at least.
pub open spec fn insert_of(catalog: Catalog, tokens: Seq<Seq<u8>>) -> Result<QueryView, ParseError> {
    if tokens.len() < 6 || tokens[1] != word("into"@) || tokens[3] != word("("@) || tokens.last()
        != word(")"@) {
        Err(ParseError::Malformed)
    } else {
        match table_named(catalog, tokens[2]) {
            Err(e) => Err(e),
            Ok(t) => match pairs_of(tokens.subrange(4, tokens.len() - 1)) {
                None => Err(ParseError::Malformed),
                Some(pairs) => match attributes_of(
                    catalog.spec_schemas()[t].table.columns@,
                    pairs,
                ) {
                    Err(e) => Err(e),
                    Ok(attributes) => Ok(
                        QueryView::Insert { table_name: decode_utf8(tokens[2]), attributes },
                    ),
                },
            },
        }
    }
}

/// The query that the bytes `query` write: they end with `;`, and the
/// words before it, separated by single spaces, are those of a `select`,
/// of an `insert` or of `exit`.
pub open spec fn query_of(catalog: Catalog, query: Seq<u8>) -> Result<QueryView, ParseError> {
    if query.len() == 0 || query.last() != 59 {
        Err(ParseError::MissingSemicolon)
    } else {
        let tokens = split(query.drop_last(), 32);
        if tokens[0] == word("select"@) {
            select_of(catalog, tokens)
        } else if tokens[0] == word("insert"@) {
            insert_of(catalog, tokens)
        } else if tokens[0] == word("exit"@) {
            if tokens.len() == 1 {
                Ok(QueryView::Exit)
            } else {
                Err(ParseError::Malformed)
            }
        } else {
            Err(ParseError::UnknownVerb)
        }
    }
}

/// A failure to split the first attributes is a failure to split them all.
pub proof fn lemma_pairs_of_fails(tokens: Seq<Seq<u8>>, n: int)
    requires
        0 <= n <= tokens.len(),
        pairs_of(tokens.take(n)) is None,
    ensures
        pairs_of(tokens) is None,
    decreases tokens.len(),
{
    if n == tokens.len() {
        assert(tokens.take(n) =~= tokens);
    } else {
        assert(tokens.drop_last().take(n) =~= tokens.take(n));
        lemma_pairs_of_fails(tokens.drop_last(), n);
    }
}

/// A fault in the first columns is the fault of them all.
pub proof fn lemma_attributes_of_fails(columns: Seq<Column>, pairs: Seq<(Seq<u8>, Seq<u8>)>, n: int)
    requires
        0 <= n <= columns.len(),
        attributes_of(columns.take(n), pairs) is Err,
    ensures
        attributes_of(columns, pairs) == attributes_of(columns.take(n), pairs),
    decreases columns.len(),
{
    if n == columns.len() {
        assert(columns.take(n) =~= columns);
    } else {
        assert(columns.drop_last().take(n) =~= columns.take(n));
        lemma_attributes_of_fails(columns.drop_last(), pairs, n);
    }
}

/// The names and values that the given pairs of vectors hold.
pub open spec fn pairs_view(pairs: Seq<(Vec<u8>, Vec<u8>)>) -> Seq<(Seq<u8>, Seq<u8>)> {
    Seq::new(pairs.len(), |i: int| (pairs[i].0@, pairs[i].1@))
}

/// A `select` query.
#[derive(Debug)]
pub struct SelectInput {
    pub table_name: String,
}

/// An `insert` query.
#[derive(Debug)]
pub struct InsertInput {
    pub table_name: String,
    pub attributes: Attributes,
}

/// A query.
#[derive(Debug)]
pub enum ExecuteType {
    Select(SelectInput),
    Insert(InsertInput),
    Exit,
}

impl View for ExecuteType {
    type V = QueryView;

    open spec fn view(&self) -> QueryView {
        match self {
            ExecuteType::Select(input) => QueryView::Select { table_name: input.table_name@ },
            ExecuteType::Insert(input) => QueryView::Insert {
                table_name: input.table_name@,
                attributes: input.attributes@,
            },
            ExecuteType::Exit => QueryView::Exit,
        }
    }
}

impl PartialEq for SelectInput {
    fn eq(&self, other: &Self) -> (r: bool) {
        str_eq(self.table_name.as_str(), other.table_name.as_str())
    }
}

impl vstd::std_specs::cmp::PartialEqSpecImpl for SelectInput {
    open spec fn obeys_eq_spec() -> bool {
        true
    }

    open spec fn eq_spec(&self, other: &Self) -> bool {
        self.table_name@ == other.table_name@
    }
}

impl PartialEq for InsertInput {
    fn eq(&self, other: &Self) -> (r: bool) {
        str_eq(self.table_name.as_str(), other.table_name.as_str()) && self.attributes.eq(
            &other.attributes,
        )
    }
}

impl vstd::std_specs::cmp::PartialEqSpecImpl for InsertInput {
    open spec fn obeys_eq_spec() -> bool {
        true
    }

    open spec fn eq_spec(&self, other: &Self) -> bool {
        self.table_name@ == other.table_name@ && self.attributes@ == other.attributes@
    }
}

impl PartialEq for ExecuteType {
    fn eq(&self, other: &Self) -> (r: bool) {
        match (self, other) {
            (ExecuteType::Select(a), ExecuteType::Select(b)) => a.eq(b),
            (ExecuteType::Insert(a), ExecuteType::Insert(b)) => a.eq(b),
            (ExecuteType::Exit, ExecuteType::Exit) => true,
            _ => false,
        }
    }
}

impl vstd::std_specs::cmp::PartialEqSpecImpl for ExecuteType {
    open spec fn obeys_eq_spec() -> bool {
        true
    }

    open spec fn eq_spec(&self, other: &Self) -> bool {
        self@ == other@
    }
}

/// The parser, for the tables of a catalog.
pub struct Parser<'a> {
    catalog: &'a Catalog,
}

/// Counts the pairs with the name `name`, and finds the last of them.
fn find_pair(pairs: &Vec<(Vec<u8>, Vec<u8>)>, name: &[u8]) -> (r: (usize, usize))
    ensures
        r.0 == occurrences(pairs_view(pairs@), name@),
        r.0 > 0 ==> r.1 < pairs@.len() && pairs@[r.1 as int].1@ == value_named(
            pairs_view(pairs@),
            name@,
        ),
{
    let mut count: usize = 0;
    let mut found: usize = 0;
    let mut i: usize = 0;
    let ghost all = pairs_view(pairs@);
    while i < pairs.len()
        invariant
            i <= pairs.len(),
            all == pairs_view(pairs@),
            count <= i,
            count == occurrences(all.take(i as int), name@),
            count > 0 ==> found < i && pairs@[found as int].1@ == value_named(
                all.take(i as int),
                name@,
            ),
        decreases pairs.len() - i,
    {
        proof {
            assert(all.take(i + 1).drop_last() =~= all.take(i as int));
            assert(all.take(i + 1).last() == all[i as int]);
        }
        if bytes_eq(pairs[i].0.as_slice(), name) {
            count += 1;
            found = i;
        }
        i += 1;
    }
    assert(all.take(i as int) =~= all);
    (count, found)
}

/// Reads the value of a column of the given kind.
fn parse_value(kind: ColumnKind, value: &[u8]) -> (r: Option<AttributeType>)
    ensures
        match r {
            Some(v) => value_of(kind, value@) == Some(v@),
            None => value_of(kind, value@) is None,
        },
{
    match kind {
        ColumnKind::Int => match parse_number(value) {
            Some(n) => Some(AttributeType::Int(n)),
            None => None,
        },
        ColumnKind::Text => {
            let n = value.len();
            if n < 2 || value[0] != 39 || value[n - 1] != 39 {
                return None;
            }
            match string_from_utf8(copy_range(value, 1, n - 1)) {
                Some(text) => Some(AttributeType::Text(text)),
                None => None,
            }
        },
        ColumnKind::Unknown => None,
    }
}

impl<'a> Parser<'a> {
    /// The catalog of the tables.
    pub closed spec fn catalog(&self) -> Catalog {
        *self.catalog
    }

    /// A parser for the tables of `catalog`.
    pub fn new(catalog: &'a Catalog) -> (r: Self)
        ensures
            r.catalog() == *catalog,
    {
        Self { catalog }
    }

    /// The name of the table that the bytes `name` name, where the catalog
    /// has it.
    fn table_name(&self, name: &[u8]) -> (r: Option<String>)
        ensures
            match r {
                Some(s) => table_named(self.catalog(), name@) is Ok && s@ == decode_utf8(name@),
                None => table_named(self.catalog(), name@) is Err,
            },
    {
        let copy = copy_range(name, 0, name.len());
        assert(copy@ =~= name@);
        match string_from_utf8(copy) {
            None => None,
            Some(s) => {
                if self.catalog.exist_table(s.as_str()) {
                    Some(s)
                } else {
                    None
                }
            },
        }
    }

    /// Reads the words of a `select`.
    pub fn parse_select(&self, tokens: &Vec<Vec<u8>>) -> (r: Result<ExecuteType, ParseError>)
        ensures
            match r {
                Ok(q) => select_of(self.catalog(), parts_view(tokens@)) == Ok::<QueryView, ParseError>(
                    q@,
                ),
                Err(e) => select_of(self.catalog(), parts_view(tokens@)) == Err::<
                    QueryView,
                    ParseError,
                >(e),
            },
    {
        if tokens.len() != 4 || !bytes_eq(tokens[1].as_slice(), "*".as_bytes()) || !bytes_eq(
            tokens[2].as_slice(),
            "from".as_bytes(),
        ) {
            return Err(ParseError::Malformed);
        }
        match self.table_name(tokens[3].as_slice()) {
            Some(table_name) => Ok(ExecuteType::Select(SelectInput { table_name })),
            None => Err(ParseError::UnknownTable),
        }
    }

    /// Reads the words of an `insert`.
    #[verifier::rlimit(50)]
    pub fn parse_insert(&self, tokens: &Vec<Vec<u8>>) -> (r: Result<ExecuteType, ParseError>)
        ensures
            match r {
                Ok(q) => insert_of(self.catalog(), parts_view(tokens@)) == Ok::<QueryView, ParseError>(
                    q@,
                ),
                Err(e) => insert_of(self.catalog(), parts_view(tokens@)) == Err::<
                    QueryView,
                    ParseError,
                >(e),
            },
    {
        let ghost expected = insert_of(self.catalog(), parts_view(tokens@));
        let n = tokens.len();
        if n < 6 || !bytes_eq(tokens[1].as_slice(), "into".as_bytes()) || !bytes_eq(
            tokens[3].as_slice(),
            "(".as_bytes(),
        ) || !bytes_eq(tokens[n - 1].as_slice(), ")".as_bytes()) {
            return Err(ParseError::Malformed);
        }
        let table_name = match self.table_name(tokens[2].as_slice()) {
            Some(table_name) => table_name,
            None => {
                return Err(ParseError::UnknownTable);
            },
        };
        let ghost words = parts_view(tokens@).subrange(4, n - 1);
        let ghost t = table_named(self.catalog(), tokens@[2]@)->Ok_0;
        let ghost table_columns = self.catalog().spec_schemas()[t].table.columns@;
        proof {
            assert(parts_view(tokens@).last() == tokens@[n - 1]@);
        }
        let mut pairs: Vec<(Vec<u8>, Vec<u8>)> = Vec::new();
        let mut i: usize = 4;
        assert(pairs_view(pairs@) =~= Seq::empty());
        while i < n - 1
            invariant
                4 <= i <= n - 1,
                n == tokens@.len(),
                words == parts_view(tokens@).subrange(4, n - 1),
                expected == insert_of(self.catalog(), parts_view(tokens@)),
                pairs_of(words) is None ==> expected == Err::<QueryView, ParseError>(
                    ParseError::Malformed,
                ),
                pairs_of(words.take(i - 4)) == Some(pairs_view(pairs@)),
            decreases n - i,
        {
            let mut parts = split_bytes(tokens[i].as_slice(), 61);
            proof {
                assert(words.take(i + 1 - 4).drop_last() =~= words.take(i - 4));
                assert(words.take(i + 1 - 4).last() == tokens@[i as int]@);
            }
            if parts.len() != 2 {
                proof {
                    lemma_pairs_of_fails(words, i + 1 - 4);
                }
                return Err(ParseError::Malformed);
            }
            let ghost both = parts_view(parts@);
            let value = parts.pop().unwrap();
            let name = parts.pop().unwrap();
            let ghost before = pairs_view(pairs@);
            pairs.push((name, value));
            proof {
                assert(name@ == both[0] && value@ == both[1]);
                assert(pairs_view(pairs@) =~= before.push((name@, value@)));
            }
            i += 1;
        }
        proof {
            assert(words.take(i - 4) =~= words);
        }
        let schema = match self.catalog.get_schema_by_table_name(table_name.as_str()) {
            Some(schema) => schema,
            None => {
                return Err(ParseError::UnknownTable);
            },
        };
        let columns = &schema.table.columns;
        let ghost given = pairs_view(pairs@);
        proof {
            assert(columns@ == table_columns);
            assert(expected == match attributes_of(columns@, given) {
                Err(e) => Err::<QueryView, ParseError>(e),
                Ok(attributes) => Ok(QueryView::Insert { table_name: table_name@, attributes }),
            });
        }
        let mut attributes = Attributes::new();
        let mut c: usize = 0;
        while c < columns.len()
            invariant
                c <= columns.len(),
                given == pairs_view(pairs@),
                expected == insert_of(self.catalog(), parts_view(tokens@)),
                expected == match attributes_of(columns@, given) {
                    Err(e) => Err::<QueryView, ParseError>(e),
                    Ok(attributes) => Ok(QueryView::Insert { table_name: table_name@, attributes }),
                },
                attributes_of(columns@.take(c as int), given) == Ok::<
                    Map<Seq<char>, AttributeView>,
                    ParseError,
                >(attributes@),
            decreases columns.len() - c,
        {
            let column = &columns[c];
            proof {
                assert(columns@.take(c + 1).drop_last() =~= columns@.take(c as int));
                assert(columns@.take(c + 1).last() == columns@[c as int]);
            }
            let (count, found) = find_pair(&pairs, column.name.as_str().as_bytes());
            if count != 1 {
                proof {
                    lemma_attributes_of_fails(columns@, given, c + 1);
                }
                if count == 0 {
                    return Err(ParseError::MissingColumn);
                } else {
                    return Err(ParseError::Malformed);
                }
            }
            match parse_value(column.kind(), pairs[found].1.as_slice()) {
                None => {
                    proof {
                        lemma_attributes_of_fails(columns@, given, c + 1);
                    }
                    return Err(ParseError::TypeMismatch);
                },
                Some(value) => {
                    attributes.insert(column.name.clone(), value);
                },
            }
            c += 1;
        }
        proof {
            assert(columns@.take(c as int) =~= columns@);
        }
        assert(expected == insert_of(self.catalog(), parts_view(tokens@)));
        Ok(ExecuteType::Insert(InsertInput { table_name, attributes }))
    }

    /// Reads a query: `select * from <table>;`,
    /// `insert into <table> ( column=value ... );` or `exit;`. Words are
    /// separated by single spaces; text values stand in single quotes,
    /// numbers bare.
    pub fn parse(&self, query: &str) -> (r: Result<ExecuteType, ParseError>)
        ensures
            match r {
                Ok(q) => query_of(self.catalog(), query.spec_bytes()) == Ok::<QueryView, ParseError>(
                    q@,
                ),
                Err(e) => query_of(self.catalog(), query.spec_bytes()) == Err::<QueryView, ParseError>(
                    e,
                ),
            },
    {
        let bytes = query.as_bytes();
        let n = bytes.len();
        if n == 0 || bytes[n - 1] != 59 {
            return Err(ParseError::MissingSemicolon);
        }
        let body = vstd::slice::slice_subrange(bytes, 0, n - 1);
        assert(body@ =~= bytes@.drop_last());
        let tokens = split_bytes(body, 32);
        proof {
            lemma_split_len(body@, 32);
        }
        if bytes_eq(tokens[0].as_slice(), "select".as_bytes()) {
            self.parse_select(&tokens)
        } else if bytes_eq(tokens[0].as_slice(), "insert".as_bytes()) {
            self.parse_insert(&tokens)
        } else if bytes_eq(tokens[0].as_slice(), "exit".as_bytes()) {
            if tokens.len() == 1 {
                Ok(ExecuteType::Exit)
            } else {
                Err(ParseError::Malformed)
            }
        } else {
            Err(ParseError::UnknownVerb)
        }
    }
}

} // verus!
