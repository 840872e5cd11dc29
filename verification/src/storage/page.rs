//! Pages: a header of 32 bytes, then fixed-width tuples, then zeros up to
//! 4096 bytes.

use vstd::prelude::*;
use crate::catalog::{columns_width, Column, Schema, Table};
use crate::storage::endian::{be_bytes_u32, lemma_be_u32_round_trip, push_be_u32, read_be_u32, u32_of_be_bytes};
use crate::storage::tuple::{
    body_fits, lemma_body_image_len, lemma_tuple_image_decodes, stored_tuple, tuple_image,
    tuple_of_image, Tuple, TupleView, TUPLE_HEADER_SIZE,
};
use crate::storage::StorageError;
use crate::strings::{push_all, push_zeros, zeros};

verus! {

/// The size of a page, in bytes.
pub const PAGE_SIZE: usize = 4096;

/// The size of a page's header, in bytes.
pub const PAGE_HEADER_SIZE: usize = 32;

/// The number of a page within its table's file.
#[derive(Hash, PartialEq, Eq, Clone, Debug, Copy, Structural)]
pub struct PageID(pub usize);

impl PageID {
    /// The number itself.
    pub fn value(&self) -> (v: usize)
        ensures
            v == self.0,
    {
        self.0
    }

    /// The byte offset of the page in its table's file.
    pub fn offset(&self) -> (o: usize)
        requires
            PAGE_SIZE * self.0 <= usize::MAX,
        ensures
            o == PAGE_SIZE * self.0,
    {
        PAGE_SIZE * self.0
    }
}

/// The header of a page: the number of its tuples, big-endian in the first
/// four of its 32 bytes.
#[derive(Debug)]
pub struct PageHeader {
    pub tuple_count: u32,
}

impl PageHeader {
    /// Reads the header from the first four bytes of `raw`.
    pub fn fill(&mut self, raw: &[u8])
        requires
            raw@.len() >= 4,
        ensures
            final(self).tuple_count == u32_of_be_bytes(raw@),
    {
        self.tuple_count = read_be_u32(raw, 0);
        assert(raw@.subrange(0, 4)[0] == raw@[0]);
        assert(raw@.subrange(0, 4)[1] == raw@[1]);
        assert(raw@.subrange(0, 4)[2] == raw@[2]);
        assert(raw@.subrange(0, 4)[3] == raw@[3]);
    }

    /// The 32 bytes of the header.
    pub fn raw(&self) -> (r: Vec<u8>)
        ensures
            r@ == header_image(self.tuple_count),
    {
        let mut r: Vec<u8> = Vec::new();
        push_be_u32(&mut r, self.tuple_count);
        push_zeros(&mut r, PAGE_HEADER_SIZE - 4);
        r
    }
}

impl Default for PageHeader {
    fn default() -> (r: Self)
        ensures
            r.tuple_count == 0,
    {
        PageHeader { tuple_count: 0 }
    }
}

/// The 32 bytes of a page header that states `tuple_count` tuples.
pub open spec fn header_image(tuple_count: u32) -> Seq<u8> {
    be_bytes_u32(tuple_count) + zeros(28)
}

/// The views of the given tuples.
pub open spec fn tuple_views(tuples: Seq<Tuple>) -> Seq<TupleView> {
    Seq::new(tuples.len(), |i: int| tuples[i]@)
}

/// The number of tuples of the given size that a page holds.
pub open spec fn page_capacity(tuple_size: nat) -> nat
    recommends
        tuple_size > 0,
{
    ((PAGE_SIZE - PAGE_HEADER_SIZE) / tuple_size as int) as nat
}

/// The images of the given tuples, one after the other.
pub open spec fn tuples_image(columns: Seq<Column>, tuples: Seq<TupleView>) -> Seq<u8>
    decreases tuples.len(),
{
    if tuples.len() == 0 {
        Seq::empty()
    } else {
        tuples_image(columns, tuples.drop_last()) + tuple_image(columns, tuples.last())
    }
}

/// Whether every one of the tuples holds, for every column, a value that
/// fits it.
pub open spec fn tuples_fit(columns: Seq<Column>, tuples: Seq<TupleView>) -> bool {
    forall|i: int| 0 <= i < tuples.len() ==> body_fits(columns, #[trigger] tuples[i].attributes)
}

/// Whether a header that states `tuple_count` tuples, and the given tuples,
/// make a page of the table: the count is right, the tuples fit the
/// columns, and all of them fit in a page.
pub open spec fn page_fits(table: Table, tuple_count: u32, tuples: Seq<TupleView>) -> bool {
    &&& tuple_count == tuples.len()
    &&& PAGE_HEADER_SIZE + tuples.len() * table.spec_tuple_size() <= PAGE_SIZE
    &&& tuples_fit(table.columns@, tuples)
}

/// The 4096 bytes of a page of the table with the given tuples: the header,
/// the tuples in order, and zeros.
pub open spec fn page_image(table: Table, tuples: Seq<TupleView>) -> Seq<u8> {
    let used = header_image(tuples.len() as u32) + tuples_image(table.columns@, tuples);
    used + zeros((PAGE_SIZE - used.len()) as nat)
}

/// The first `n` tuples that a page image holds for the given columns, each
/// `size` bytes wide, or `None` where one of them cannot be read.
pub open spec fn tuples_of_image(columns: Seq<Column>, size: nat, raw: Seq<u8>, n: nat) -> Option<
    Seq<TupleView>,
>
    decreases n,
{
    if n == 0 {
        Some(Seq::empty())
    } else {
        let from = PAGE_HEADER_SIZE + (n - 1) * size;
        match tuples_of_image(columns, size, raw, (n - 1) as nat) {
            None => None,
            Some(tuples) => match tuple_of_image(columns, raw.subrange(from, from + size)) {
                None => None,
                Some(tuple) => Some(tuples.push(tuple)),
            },
        }
    }
}

/// The tuples that a page image holds for the table, or `None` where the
/// image is not 4096 bytes long, states more tuples than fit, or holds a
/// tuple that cannot be read. Bytes after the last tuple do not count.
pub open spec fn page_of_image(table: Table, raw: Seq<u8>) -> Option<Seq<TupleView>> {
    let count = u32_of_be_bytes(raw) as nat;
    if raw.len() != PAGE_SIZE {
        None
    } else if PAGE_HEADER_SIZE + count * table.spec_tuple_size() > PAGE_SIZE {
        None
    } else {
        tuples_of_image(table.columns@, table.spec_tuple_size(), raw, count)
    }
}

/// What a page is: its number and its tuples, in insertion order.
pub struct PageView {
    pub id: nat,
    pub tuple_count: u32,
    pub tuples: Seq<TupleView>,
}

/// A page of a table, decoded.
#[derive(Debug)]
pub struct Page {
    pub id: PageID,
    pub header: PageHeader,
    pub body: Vec<Tuple>,
    pub size: usize,
}

impl View for Page {
    type V = PageView;

    open spec fn view(&self) -> PageView {
        PageView {
            id: self.id.0 as nat,
            tuple_count: self.header.tuple_count,
            tuples: tuple_views(self.body@),
        }
    }
}

impl Default for Page {
    fn default() -> (r: Self)
        ensures
            r@ == (PageView { id: 0, tuple_count: 0, tuples: Seq::empty() }),
            r.size == PAGE_SIZE,
    {
        let r = Page {
            id: PageID(0),
            size: PAGE_SIZE,
            header: PageHeader { tuple_count: 0 },
            body: Vec::new(),
        };
        assert(tuple_views(r.body@) =~= Seq::empty());
        r
    }
}

/// Whether `n` tuples of the given size fit in a page, after the header.
pub open spec fn tuples_fit_in_page(n: nat, tuple_size: nat) -> bool {
    PAGE_HEADER_SIZE + n * tuple_size <= PAGE_SIZE
}

/// `n` tuples fit in a page exactly when `n` is at most the page's capacity.
pub proof fn lemma_capacity(n: nat, tuple_size: nat)
    requires
        tuple_size > 0,
    ensures
        tuples_fit_in_page(n, tuple_size) <==> n <= page_capacity(tuple_size),
{
    let room = (PAGE_SIZE - PAGE_HEADER_SIZE) as int;
    let size = tuple_size as int;
    let cap = room / size;
    assert(cap * size <= room < (cap + 1) * size) by (nonlinear_arith)
        requires
            cap == room / size,
            size > 0,
            room >= 0,
    ;
    if n <= cap {
        assert(n * size <= cap * size) by (nonlinear_arith)
            requires
                n <= cap,
                size > 0,
        ;
    } else {
        assert(n * size >= (cap + 1) * size) by (nonlinear_arith)
            requires
                n >= cap + 1,
                size > 0,
        ;
    }
}

/// The images of tuples that fit the columns are as long as the tuples are
/// many times the tuple size.
pub proof fn lemma_tuples_image_len(columns: Seq<Column>, tuples: Seq<TupleView>)
    requires
        tuples_fit(columns, tuples),
    ensures
        tuples_image(columns, tuples).len() == tuples.len() * (TUPLE_HEADER_SIZE + columns_width(
            columns,
        )),
    decreases tuples.len(),
{
    let size = (TUPLE_HEADER_SIZE + columns_width(columns)) as int;
    if tuples.len() > 0 {
        let rest = tuples.drop_last();
        assert forall|i: int| 0 <= i < rest.len() implies body_fits(
            columns,
            #[trigger] rest[i].attributes,
        ) by {
            assert(rest[i] == tuples[i]);
        }
        lemma_tuples_image_len(columns, rest);
        assert(body_fits(columns, tuples[tuples.len() - 1].attributes));
        lemma_body_image_len(columns, tuples.last().attributes);
        assert((tuples.len() - 1) * size + size == tuples.len() * size) by (nonlinear_arith);
    } else {
        assert(0 * size == 0);
    }
}

/// A failure to read the first tuples of an image is a failure to read more
/// of them.
pub proof fn lemma_tuples_of_image_fails(columns: Seq<Column>, size: nat, raw: Seq<u8>, k: nat, n: nat)
    requires
        k <= n,
        tuples_of_image(columns, size, raw, k) is None,
    ensures
        tuples_of_image(columns, size, raw, n) is None,
    decreases n,
{
    if k < n {
        lemma_tuples_of_image_fails(columns, size, raw, k, (n - 1) as nat);
    }
}

impl Page {
    /// Reads the page from its 4096-byte image `raw`: the tuple count from
    /// the header, then that many tuples of the table of `schema`. The
    /// page's number stays. Where `raw` is no such image, the page stays as
    /// it is.
    #[verifier::rlimit(50)]
    pub fn fill(&mut self, raw: &[u8], schema: &Schema) -> (r: Result<(), StorageError>)
        ensures
            match r {
                Ok(_) => page_of_image(schema.table, raw@) == Some(final(self)@.tuples)
                    && final(self)@.tuple_count == final(self)@.tuples.len()
                    && final(self).id == old(self).id && final(self).size == old(self).size,
                Err(e) => e == StorageError::InvalidImage && page_of_image(schema.table, raw@) is None
                    && *final(self) == *old(self),
            },
    {
        let table = &schema.table;
        let ghost columns = table.columns@;
        let ghost size = table.spec_tuple_size();
        if raw.len() != PAGE_SIZE {
            return Err(StorageError::InvalidImage);
        }
        let count: u32 = read_be_u32(raw, 0);
        proof {
            assert(raw@.subrange(0, 4)[0] == raw@[0]);
            assert(raw@.subrange(0, 4)[1] == raw@[1]);
            assert(raw@.subrange(0, 4)[2] == raw@[2]);
            assert(raw@.subrange(0, 4)[3] == raw@[3]);
        }
        let width: usize = match table.tuple_size_within(PAGE_SIZE - PAGE_HEADER_SIZE) {
            None => {
                if count != 0 {
                    assert(!tuples_fit_in_page(count as nat, size)) by (nonlinear_arith)
                        requires
                            size > PAGE_SIZE - PAGE_HEADER_SIZE,
                            count >= 1,
                    ;
                    return Err(StorageError::InvalidImage);
                }
                assert(0 * size == 0);
                self.header.tuple_count = 0;
                self.body = Vec::new();
                assert(tuple_views(self.body@) =~= Seq::empty());
                return Ok(());
            },
            Some(width) => {
                proof {
                    lemma_capacity(count as nat, size);
                }
                if count as usize > (PAGE_SIZE - PAGE_HEADER_SIZE) / width {
                    return Err(StorageError::InvalidImage);
                }
                width
            },
        };
        let n: usize = count as usize;
        let mut body: Vec<Tuple> = Vec::new();
        let mut offset: usize = PAGE_HEADER_SIZE;
        let mut i: usize = 0;
        assert(tuple_views(body@) =~= Seq::empty());
        assert(0 * size == 0);
        while i < n
            invariant
                i <= n,
                n == count,
                *self == *old(self),
                count == u32_of_be_bytes(raw@),
                raw@.len() == PAGE_SIZE,
                columns == schema.table.columns@,
                size == schema.table.spec_tuple_size(),
                size == width,
                tuples_fit_in_page(n as nat, size),
                offset == PAGE_HEADER_SIZE + i * size,
                body@.len() == i,
                tuples_of_image(columns, size, raw@, i as nat) == Some(tuple_views(body@)),
            decreases n - i,
        {
            assert(PAGE_HEADER_SIZE + (i + 1) * size <= PAGE_HEADER_SIZE + n * size
                && PAGE_HEADER_SIZE + (i + 1) * size == offset + size) by (nonlinear_arith)
                requires
                    i + 1 <= n,
                    size >= 0,
                    offset == PAGE_HEADER_SIZE + i * size,
            ;
            let field = vstd::slice::slice_subrange(raw, offset, offset + width);
            let ghost from = PAGE_HEADER_SIZE + ((i + 1) - 1) * size;
            assert(field@ == raw@.subrange(from, from + size));
            let mut tuple = Tuple::default();
            match tuple.fill(field, &schema.table.columns) {
                Ok(_) => {
                    let ghost before = body@;
                    body.push(tuple);
                    assert(tuple_views(body@) =~= tuple_views(before).push(tuple@));
                },
                Err(e) => {
                    proof {
                        assert(tuples_of_image(columns, size, raw@, (i + 1) as nat) is None);
                        lemma_tuples_of_image_fails(columns, size, raw@, (i + 1) as nat, n as nat);
                    }
                    return Err(e);
                },
            }
            offset = offset + width;
            i += 1;
        }
        self.header.tuple_count = count;
        self.body = body;
        Ok(())
    }

    /// Whether one more tuple of the table fits in the page.
    pub fn can_add_tuple(&self, schema: &Schema) -> (r: bool)
        ensures
            r == tuples_fit_in_page(
                (self.header.tuple_count + 1) as nat,
                schema.table.spec_tuple_size(),
            ),
    {
        match schema.table.tuple_size_within(PAGE_SIZE - PAGE_HEADER_SIZE) {
            None => {
                assert(!tuples_fit_in_page(
                    (self.header.tuple_count + 1) as nat,
                    schema.table.spec_tuple_size(),
                )) by (nonlinear_arith)
                    requires
                        schema.table.spec_tuple_size() > PAGE_SIZE - PAGE_HEADER_SIZE,
                        self.header.tuple_count >= 0,
                ;
                false
            },
            Some(size) => {
                proof {
                    lemma_capacity((self.header.tuple_count + 1) as nat, size as nat);
                }
                (self.header.tuple_count as usize) < (PAGE_SIZE - PAGE_HEADER_SIZE) / size
            },
        }
    }

    /// Appends `tuple` to the page and counts it in the header.
    pub fn add_tuple(&mut self, tuple: Tuple)
        requires
            old(self).header.tuple_count < u32::MAX,
        ensures
            final(self)@ == (PageView {
                id: old(self)@.id,
                tuple_count: (old(self)@.tuple_count + 1) as u32,
                tuples: old(self)@.tuples.push(tuple@),
            }),
            final(self).size == old(self).size,
    {
        self.header.tuple_count += 1;
        self.body.push(tuple);
        assert(tuple_views(self.body@) =~= tuple_views(old(self).body@).push(tuple@));
    }

    /// The 4096 bytes of the page for the table of `schema`: the header, the
    /// tuples in insertion order, and zeros.
    ///
    /// Fails with `InvalidPage` where the header's count is not the number of
    /// tuples or the tuples do not fit in a page, and else with
    /// `InvalidTuple` where a tuple does not fit the table's columns.
    #[verifier::rlimit(50)]
    pub fn raw(&self, schema: &Schema) -> (r: Result<Vec<u8>, StorageError>)
        ensures
            match r {
                Ok(bytes) => page_fits(schema.table, self@.tuple_count, self@.tuples) && bytes@
                    == page_image(schema.table, self@.tuples),
                Err(e) => !page_fits(schema.table, self@.tuple_count, self@.tuples) && e == (if self@.tuple_count
                    == self@.tuples.len() && tuples_fit_in_page(
                    self@.tuples.len(),
                    schema.table.spec_tuple_size(),
                ) {
                    StorageError::InvalidTuple
                } else {
                    StorageError::InvalidPage
                }),
            },
    {
        let table = &schema.table;
        let ghost columns = table.columns@;
        let ghost tuples = self@.tuples;
        let ghost size = table.spec_tuple_size();
        let n: usize = self.body.len();
        if self.header.tuple_count as usize != n {
            return Err(StorageError::InvalidPage);
        }
        match table.tuple_size_within(PAGE_SIZE - PAGE_HEADER_SIZE) {
            None => {
                if n != 0 {
                    assert(!tuples_fit_in_page(n as nat, size)) by (nonlinear_arith)
                        requires
                            size > PAGE_SIZE - PAGE_HEADER_SIZE,
                            n >= 1,
                    ;
                    return Err(StorageError::InvalidPage);
                }
                assert(0 * size == 0);
            },
            Some(width) => {
                proof {
                    lemma_capacity(n as nat, size);
                }
                if n > (PAGE_SIZE - PAGE_HEADER_SIZE) / width {
                    return Err(StorageError::InvalidPage);
                }
            },
        }
        let mut bytes = self.header.raw();
        let mut i: usize = 0;
        while i < n
            invariant
                i <= n,
                n == self.body@.len(),
                n == self.header.tuple_count,
                tuples == tuple_views(self.body@),
                columns == schema.table.columns@,
                size == TUPLE_HEADER_SIZE + columns_width(columns),
                tuples_fit_in_page(n as nat, size),
                tuples_fit(columns, tuples.take(i as int)),
                bytes@ == header_image(self.header.tuple_count) + tuples_image(
                    columns,
                    tuples.take(i as int),
                ),
            decreases n - i,
        {
            let ghost prefix = tuples.take(i + 1);
            proof {
                assert(prefix.drop_last() =~= tuples.take(i as int));
                assert(prefix.last() == self.body@[i as int]@);
            }
            match self.body[i].raw(&schema.table.columns) {
                Ok(image) => {
                    push_all(&mut bytes, image.as_slice());
                    proof {
                        assert forall|j: int| 0 <= j < prefix.len() implies body_fits(
                            columns,
                            #[trigger] prefix[j].attributes,
                        ) by {
                            if j < i {
                                assert(tuples.take(i as int)[j] == prefix[j]);
                            }
                        }
                        assert(bytes@ =~= header_image(self.header.tuple_count) + tuples_image(
                            columns,
                            prefix,
                        ));
                    }
                },
                Err(e) => {
                    assert(!body_fits(columns, tuples[i as int].attributes));
                    assert(!tuples_fit(columns, tuples));
                    return Err(e);
                },
            }
            i += 1;
        }
        proof {
            assert(tuples.take(i as int) =~= tuples);
            lemma_tuples_image_len(columns, tuples);
            lemma_be_u32_round_trip(self.header.tuple_count);
        }
        let padding: usize = PAGE_SIZE - bytes.len();
        push_zeros(&mut bytes, padding);
        Ok(bytes)
    }
}

/// What is read back of tuples that were written for the given columns.
pub open spec fn stored_tuples(columns: Seq<Column>, tuples: Seq<TupleView>) -> Seq<TupleView> {
    Seq::new(tuples.len(), |i: int| stored_tuple(columns, tuples[i]))
}

/// The image of the `k`-th of the tuples stands at `k` times the tuple size
/// in the image of them all.
#[verifier::rlimit(50)]
pub proof fn lemma_tuples_image_at(columns: Seq<Column>, tuples: Seq<TupleView>, k: int)
    requires
        tuples_fit(columns, tuples),
        0 <= k < tuples.len(),
    ensures
        (k + 1) * (TUPLE_HEADER_SIZE + columns_width(columns)) <= tuples_image(columns, tuples).len(),
        tuples_image(columns, tuples).subrange(
            k * (TUPLE_HEADER_SIZE + columns_width(columns)),
            (k + 1) * (TUPLE_HEADER_SIZE + columns_width(columns)),
        ) == tuple_image(columns, tuples[k]),
    decreases tuples.len(),
{
    let size = (TUPLE_HEADER_SIZE + columns_width(columns)) as int;
    let rest = tuples.drop_last();
    let n = tuples.len() as int;
    assert forall|i: int| 0 <= i < rest.len() implies body_fits(
        columns,
        #[trigger] rest[i].attributes,
    ) by {
        assert(rest[i] == tuples[i]);
    }
    lemma_tuples_image_len(columns, rest);
    lemma_tuples_image_len(columns, tuples);
    assert(body_fits(columns, tuples[n - 1].attributes));
    lemma_tuple_image_decodes(columns, tuples.last());
    let head = tuples_image(columns, rest);
    let all = tuples_image(columns, tuples);
    assert((k + 1) * size <= n * size) by (nonlinear_arith)
        requires
            k + 1 <= n,
            size >= 0,
    ;
    assert(0 <= k * size <= (k + 1) * size && (k + 1) * size == k * size + size) by (nonlinear_arith)
        requires
            k >= 0,
            size >= 0,
    ;
    if k == n - 1 {
        assert(all.subrange(k * size, (k + 1) * size) =~= tuple_image(columns, tuples[k]));
    } else {
        lemma_tuples_image_at(columns, rest, k);
        assert(all.subrange(k * size, (k + 1) * size) =~= head.subrange(k * size, (k + 1) * size));
    }
}

/// The first `n` tuples read from the image of a page are the first `n`
/// tuples written, as they are stored.
#[verifier::rlimit(50)]
pub proof fn lemma_tuples_read_back(table: Table, tuples: Seq<TupleView>, n: nat)
    requires
        page_fits(table, tuples.len() as u32, tuples),
        n <= tuples.len(),
    ensures
        tuples_of_image(table.columns@, table.spec_tuple_size(), page_image(table, tuples), n) == Some(
            stored_tuples(table.columns@, tuples.take(n as int)),
        ),
    decreases n,
{
    let columns = table.columns@;
    let size = table.spec_tuple_size();
    let image = page_image(table, tuples);
    if n == 0 {
        assert(stored_tuples(columns, tuples.take(0)) =~= Seq::empty());
    } else {
        let k = (n - 1) as int;
        lemma_tuples_read_back(table, tuples, (n - 1) as nat);
        lemma_tuples_image_at(columns, tuples, k);
        lemma_tuples_image_len(columns, tuples);
        lemma_be_u32_round_trip(tuples.len() as u32);
        let body = tuples_image(columns, tuples);
        let from = PAGE_HEADER_SIZE + k * size;
        assert(image.subrange(from, from + size) =~= body.subrange(k * size, (k + 1) * size)) by {
            assert((k + 1) * size == k * size + size) by (nonlinear_arith);
        }
        assert(body_fits(columns, tuples[k].attributes));
        lemma_tuple_image_decodes(columns, tuples[k]);
        assert(stored_tuples(columns, tuples.take(n as int)) =~= stored_tuples(
            columns,
            tuples.take(k),
        ).push(stored_tuple(columns, tuples[k])));
    }
}

/// Reading a page's image gives the page: the image of a page of the
/// table is 4096 bytes long, and the tuples read from it are the tuples
/// written, each with its attributes of the table's columns.
pub proof fn lemma_page_round_trip(table: Table, tuples: Seq<TupleView>)
    requires
        page_fits(table, tuples.len() as u32, tuples),
    ensures
        page_image(table, tuples).len() == PAGE_SIZE,
        u32_of_be_bytes(page_image(table, tuples)) == tuples.len(),
        page_of_image(table, page_image(table, tuples)) == Some(
            stored_tuples(table.columns@, tuples),
        ),
{
    let image = page_image(table, tuples);
    lemma_tuples_image_len(table.columns@, tuples);
    lemma_be_u32_round_trip(tuples.len() as u32);
    lemma_tuples_read_back(table, tuples, tuples.len());
    assert(tuples.take(tuples.len() as int) =~= tuples);
    assert(image[0] == be_bytes_u32(tuples.len() as u32)[0]);
    assert(image[1] == be_bytes_u32(tuples.len() as u32)[1]);
    assert(image[2] == be_bytes_u32(tuples.len() as u32)[2]);
    assert(image[3] == be_bytes_u32(tuples.len() as u32)[3]);
}

/// Tuples as they are stored have the same image as the tuples written.
pub proof fn lemma_tuples_image_of_stored(columns: Seq<Column>, tuples: Seq<TupleView>)
    requires
        tuples_fit(columns, tuples),
    ensures
        tuples_fit(columns, stored_tuples(columns, tuples)),
        tuples_image(columns, stored_tuples(columns, tuples)) == tuples_image(columns, tuples),
    decreases tuples.len(),
{
    let stored = stored_tuples(columns, tuples);
    assert forall|i: int| 0 <= i < stored.len() implies body_fits(
        columns,
        #[trigger] stored[i].attributes,
    ) by {
        assert(body_fits(columns, tuples[i].attributes));
        lemma_tuple_image_decodes(columns, tuples[i]);
    }
    if tuples.len() > 0 {
        let rest = tuples.drop_last();
        assert forall|i: int| 0 <= i < rest.len() implies body_fits(
            columns,
            #[trigger] rest[i].attributes,
        ) by {
            assert(rest[i] == tuples[i]);
        }
        lemma_tuples_image_of_stored(columns, rest);
        assert(stored.drop_last() =~= stored_tuples(columns, rest));
        assert(body_fits(columns, tuples[tuples.len() - 1].attributes));
        lemma_tuple_image_decodes(columns, tuples.last());
    }
}

/// Writing what was read from a page's image gives the image again: for
/// every image `b` of a page of the table, the page read from `b` has the
/// image `b`.
pub proof fn lemma_image_of_read_page(table: Table, tuples: Seq<TupleView>)
    requires
        page_fits(table, tuples.len() as u32, tuples),
    ensures
        page_of_image(table, page_image(table, tuples)) is Some,
        ({
            let read = page_of_image(table, page_image(table, tuples))->Some_0;
            page_fits(table, read.len() as u32, read) && page_image(table, read) == page_image(
                table,
                tuples,
            )
        }),
{
    lemma_page_round_trip(table, tuples);
    lemma_tuples_image_of_stored(table.columns@, tuples);
}

} // verus!
