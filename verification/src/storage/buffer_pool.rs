//! The buffer pool: a fixed array of frames, each holding one decoded page.

use vstd::prelude::*;
use crate::storage::page::{Page, PageView, PAGE_SIZE};

verus! {

/// The index of a frame in the pool.
#[derive(Copy, Clone, Debug, PartialEq, Eq, Structural)]
pub struct BufferPoolID(pub usize);

impl BufferPoolID {
    /// The index itself.
    pub fn value(&self) -> (v: usize)
        ensures
            v == self.0,
    {
        self.0
    }
}

/// A frame: its index and the page it holds.
#[derive(Debug)]
pub struct Buffer {
    pub id: BufferPoolID,
    pub page: Page,
}

impl Buffer {
    /// A frame with the given index and page.
    pub fn new(id: BufferPoolID, page: Page) -> (r: Self)
        ensures
            r.id == id,
            r.page == page,
    {
        Self { id, page }
    }
}

/// The frames of the pool. Their number is fixed when the pool is made.
#[derive(Debug)]
pub struct BufferPool {
    cache: Vec<Buffer>,
}

impl BufferPool {
    /// The frames, by index.
    pub closed spec fn frames(&self) -> Seq<Buffer> {
        self.cache@
    }

    /// Whether every frame carries its own index.
    pub open spec fn wf(&self) -> bool {
        forall|i: int| 0 <= i < self.frames().len() ==> (#[trigger] self.frames()[i]).id.0 == i
    }

    /// A pool of `size` frames, each holding an empty page.
    pub fn new(size: usize) -> (r: Self)
        requires
            size > 0,
        ensures
            r.wf(),
            r.frames().len() == size,
            forall|i: int|
                0 <= i < size ==> (#[trigger] r.frames()[i]).page@ == (PageView {
                    id: 0,
                    tuple_count: 0,
                    tuples: Seq::empty(),
                }) && r.frames()[i].page.size == PAGE_SIZE,
    {
        let mut cache: Vec<Buffer> = Vec::new();
        let mut n: usize = 0;
        while n < size
            invariant
                n <= size,
                cache@.len() == n,
                forall|i: int|
                    0 <= i < n ==> (#[trigger] cache@[i]).id.0 == i && cache@[i].page@ == (PageView {
                        id: 0,
                        tuple_count: 0,
                        tuples: Seq::empty(),
                    }) && cache@[i].page.size == PAGE_SIZE,
            decreases size - n,
        {
            cache.push(Buffer::new(BufferPoolID(n), Page::default()));
            n += 1;
        }
        Self { cache }
    }

    /// The number of frames.
    pub fn size(&self) -> (n: usize)
        ensures
            n == self.frames().len(),
    {
        self.cache.len()
    }

    /// The frame with the given index.
    pub fn get(&self, id: BufferPoolID) -> (buffer: &Buffer)
        requires
            id.0 < self.frames().len(),
        ensures
            *buffer == self.frames()[id.0 as int],
    {
        &self.cache[id.value()]
    }

    /// The frame with the given index, to change the page it holds.
    pub fn get_mut(&mut self, id: BufferPoolID) -> (buffer: &mut Buffer)
        requires
            id.0 < old(self).frames().len(),
        ensures
            *buffer == old(self).frames()[id.0 as int],
            final(self).frames() == old(self).frames().update(id.0 as int, *final(buffer)),
    {
        &mut self.cache[id.value()]
    }

    /// Puts `page` in the frame with the given index, in place of the page
    /// that was there.
    pub fn put(&mut self, id: BufferPoolID, page: Page)
        requires
            id.0 < old(self).frames().len(),
        ensures
            final(self).frames() == old(self).frames().update(
                id.0 as int,
                Buffer { id, page },
            ),
    {
        let buffer = Buffer::new(id, page);
        self.cache[id.value()] = buffer;
    }
}

} // verus!
