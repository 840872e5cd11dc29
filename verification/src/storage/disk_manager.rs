//! The disk manager: where a table's pages lie in its file, and what their
//! bytes mean. It computes; the bytes are read and written by its driver.

use vstd::prelude::*;
use vstd::string::*;
use crate::catalog::{Catalog, Table};
use crate::storage::page::{
    page_fits, page_image, page_of_image, tuples_fit_in_page, Page, PageHeader, PageID, PageView,
    PAGE_SIZE,
};
use crate::storage::tuple::TupleView;
use crate::storage::StorageError;

verus! {

/// The number of whole pages in a file of `file_len` bytes.
pub open spec fn page_count(file_len: nat) -> nat {
    file_len / PAGE_SIZE as nat
}

/// The disk manager of the tables of a catalog, whose files lie in one
/// directory.
pub struct DiskManager {
    catalog: Catalog,
    base_path: String,
}

impl DiskManager {
    /// The catalog of the tables.
    pub closed spec fn catalog(&self) -> Catalog {
        self.catalog
    }

    /// The directory of the tables' files.
    pub closed spec fn base_path(&self) -> Seq<char> {
        self.base_path@
    }

    /// The path of the file of the table `table_name`: the directory, a
    /// slash and the table's name.
    pub open spec fn spec_path(&self, table_name: Seq<char>) -> Seq<char> {
        self.base_path() + "/"@ + table_name
    }

    /// The table `table_name` of the catalog.
    pub open spec fn table_of(&self, table_name: Seq<char>) -> Option<Table> {
        match self.catalog().spec_table_id(table_name) {
            Some(t) => Some(self.catalog().spec_schemas()[t].table),
            None => None,
        }
    }

    /// What reading the bytes `data` as a page of the table gives: the
    /// page's tuples, or why there are none.
    pub open spec fn read_outcome(&self, table_name: Seq<char>, data: Seq<u8>) -> Result<
        Seq<TupleView>,
        StorageError,
    > {
        if data.len() != PAGE_SIZE {
            Err(StorageError::Io)
        } else {
            match self.table_of(table_name) {
                None => Err(StorageError::CatalogMiss),
                Some(table) => match page_of_image(table, data) {
                    Some(tuples) => Ok(tuples),
                    None => Err(StorageError::InvalidImage),
                },
            }
        }
    }

    /// What writing `page` as a page of the table takes: the offset and the
    /// image, or why the page cannot be written.
    pub open spec fn write_outcome(&self, table_name: Seq<char>, page: PageView) -> Result<
        (int, Seq<u8>),
        StorageError,
    > {
        match self.table_of(table_name) {
            None => Err(StorageError::CatalogMiss),
            Some(table) => if page_fits(table, page.tuple_count, page.tuples) {
                if PAGE_SIZE * page.id > usize::MAX {
                    Err(StorageError::InvalidPage)
                } else {
                    Ok((PAGE_SIZE * page.id, page_image(table, page.tuples)))
                }
            } else if page.tuple_count == page.tuples.len() && tuples_fit_in_page(
                page.tuples.len(),
                table.spec_tuple_size(),
            ) {
                Err(StorageError::InvalidTuple)
            } else {
                Err(StorageError::InvalidPage)
            },
        }
    }

    /// A disk manager for the tables of `catalog`, with their files in
    /// `base_path`.
    pub fn new(base_path: String, catalog: Catalog) -> (r: Self)
        ensures
            r.catalog() == catalog,
            r.base_path() == base_path@,
    {
        DiskManager { base_path, catalog }
    }

    /// The catalog of the tables.
    pub fn get_catalog(&self) -> (r: &Catalog)
        ensures
            *r == self.catalog(),
    {
        &self.catalog
    }

    /// The path of the file of the table `table_name`.
    pub fn path(&self, table_name: &str) -> (r: String)
        ensures
            r@ == self.spec_path(table_name@),
    {
        let mut r = self.base_path.clone();
        r.append("/");
        r.append(table_name);
        r
    }

    /// The page `page_id` of the table, decoded from `data`, the bytes read
    /// at the page's offset in the table's file.
    ///
    /// Fails with `Io` where `data` is not a whole page (a short read), with
    /// `CatalogMiss` where the catalog lacks the table, and with
    /// `InvalidImage` where `data` is not the image of a page of the table.
    pub fn read(&self, page_id: PageID, table_name: &str, data: &[u8]) -> (r: Result<
        Page,
        StorageError,
    >)
        ensures
            match r {
                Ok(page) => self.read_outcome(table_name@, data@) == Ok::<
                    Seq<TupleView>,
                    StorageError,
                >(page@.tuples) && page@.tuple_count == page@.tuples.len() && page.id == page_id
                    && page.size == PAGE_SIZE,
                Err(e) => self.read_outcome(table_name@, data@) == Err::<Seq<TupleView>, StorageError>(
                    e,
                ),
            },
    {
        if data.len() != PAGE_SIZE {
            return Err(StorageError::Io);
        }
        let schema = match self.catalog.get_schema_by_table_name(table_name) {
            Some(schema) => schema,
            None => {
                return Err(StorageError::CatalogMiss);
            },
        };
        let mut page = Page {
            id: page_id,
            size: PAGE_SIZE,
            header: PageHeader { tuple_count: 0 },
            body: Vec::new(),
        };
        match page.fill(data, schema) {
            Ok(_) => Ok(page),
            Err(e) => Err(e),
        }
    }

    /// Where and what to write for `page` of the table: the page's offset
    /// in the table's file, and its 4096-byte image.
    ///
    /// Fails with `CatalogMiss` where the catalog lacks the table; with
    /// `InvalidPage` where the page's offset is beyond the machine's
    /// numbers, where its header's count is not the number of its tuples,
    /// or where its tuples do not fit in a page; and with `InvalidTuple`
    /// where a tuple does not fit the table's columns.
    pub fn write(&self, page: &Page, table_name: &str) -> (r: Result<(usize, Vec<u8>), StorageError>)
        ensures
            match r {
                Ok((offset, image)) => self.write_outcome(table_name@, page@) == Ok::<
                    (int, Seq<u8>),
                    StorageError,
                >((offset as int, image@)),
                Err(e) => self.write_outcome(table_name@, page@) == Err::<(int, Seq<u8>), StorageError>(
                    e,
                ),
            },
    {
        let schema = match self.catalog.get_schema_by_table_name(table_name) {
            Some(schema) => schema,
            None => {
                return Err(StorageError::CatalogMiss);
            },
        };
        let image = match page.raw(schema) {
            Ok(image) => image,
            Err(e) => {
                return Err(e);
            },
        };
        if page.id.0 > usize::MAX / PAGE_SIZE {
            return Err(StorageError::InvalidPage);
        }
        Ok((page.id.offset(), image))
    }

    /// The page that extends a file of `file_len` bytes: an empty page
    /// whose number is the number of whole pages in the file.
    pub fn allocate_page(&self, file_len: usize) -> (page: Page)
        ensures
            page@ == (PageView { id: page_count(file_len as nat), tuple_count: 0, tuples: Seq::empty() }),
            page.size == PAGE_SIZE,
    {
        let page = Page {
            id: PageID(file_len / PAGE_SIZE),
            size: PAGE_SIZE,
            header: PageHeader { tuple_count: 0 },
            body: Vec::new(),
        };
        assert(page@.tuples =~= Seq::empty());
        page
    }

    /// The number of the last page of a file of `file_len` bytes, or `None`
    /// where the file holds no page.
    pub fn last_page_id(&self, file_len: usize) -> (r: Option<PageID>)
        ensures
            r == if page_count(file_len as nat) == 0 {
                None
            } else {
                Some(PageID((page_count(file_len as nat) - 1) as usize))
            },
    {
        let page_num = file_len / PAGE_SIZE;
        if page_num == 0 {
            None
        } else {
            Some(PageID(page_num - 1))
        }
    }
}

} // verus!
