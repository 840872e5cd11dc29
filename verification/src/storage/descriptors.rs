//! Frame descriptors: for each frame its pin count and its dirty bit.

use vstd::prelude::*;
use crate::storage::buffer_pool::BufferPoolID;

verus! {

/// The index of a descriptor; it is the index of the descriptor's frame.
#[derive(Copy, Clone, Hash, PartialEq, Eq, Debug, Structural)]
pub struct DescriptorID(pub usize);

impl DescriptorID {
    /// The index itself.
    pub fn value(&self) -> (v: usize)
        ensures
            v == self.0,
    {
        self.0
    }

    /// The descriptor of the frame with the given index.
    pub fn from_buf_pool_id(buffer_pool_id: BufferPoolID) -> (r: Self)
        ensures
            r.0 == buffer_pool_id.0,
    {
        Self(buffer_pool_id.value())
    }
}

/// What a descriptor says, as mathematical values.
pub struct DescriptorView {
    pub id: DescriptorID,
    pub dirty: bool,
    pub buffer_pool_id: BufferPoolID,
    pub pin_count: nat,
}

/// What is known of one frame: how many users hold it, and whether its page
/// was changed since it was last written.
#[derive(Clone, Copy, Debug)]
pub struct Descriptor {
    pub id: DescriptorID,
    pub dirty: bool,
    pub buffer_pool_id: BufferPoolID,
    pin_count: usize,
}

impl View for Descriptor {
    type V = DescriptorView;

    closed spec fn view(&self) -> DescriptorView {
        DescriptorView {
            id: self.id,
            dirty: self.dirty,
            buffer_pool_id: self.buffer_pool_id,
            pin_count: self.pin_count as nat,
        }
    }
}

impl Descriptor {
    /// A clean, unpinned descriptor.
    pub fn new(id: DescriptorID, buffer_pool_id: BufferPoolID) -> (r: Self)
        ensures
            r@ == (DescriptorView { id, dirty: false, buffer_pool_id, pin_count: 0 }),
    {
        Self { id, dirty: false, buffer_pool_id, pin_count: 0 }
    }

    /// The index of the descriptor.
    pub fn id(&self) -> (id: DescriptorID)
        ensures
            id == self@.id,
    {
        self.id
    }

    /// The index of the descriptor's frame.
    pub fn buffer_pool_id(&self) -> (id: BufferPoolID)
        ensures
            id == self@.buffer_pool_id,
    {
        self.buffer_pool_id
    }

    /// Whether the frame's page was changed since it was last written.
    pub fn is_dirty(&self) -> (r: bool)
        ensures
            r == self@.dirty,
    {
        self.dirty
    }

    /// Counts one more user.
    pub fn pin(&mut self)
        requires
            old(self)@.pin_count < usize::MAX,
        ensures
            final(self)@ == (DescriptorView { pin_count: old(self)@.pin_count + 1, ..old(self)@ }),
    {
        self.pin_count += 1
    }

    /// Counts one user less.
    pub fn unpin(&mut self)
        requires
            old(self)@.pin_count > 0,
        ensures
            final(self)@ == (DescriptorView {
                pin_count: (old(self)@.pin_count - 1) as nat,
                ..old(self)@
            }),
    {
        self.pin_count -= 1
    }

    /// The number of users that hold the frame.
    pub fn pins(&self) -> (n: usize)
        ensures
            n == self@.pin_count,
    {
        self.pin_count
    }

    /// Whether one more user can be counted.
    pub fn below_limit(&self) -> (r: bool)
        ensures
            r == (self@.pin_count < usize::MAX),
    {
        self.pin_count < usize::MAX
    }

    /// Whether any user holds the frame.
    pub fn pinned(&self) -> (r: bool)
        ensures
            r == (self@.pin_count > 0),
    {
        self.pin_count > 0
    }

    /// Marks the frame's page as changed.
    pub fn mark_dirty(&mut self)
        ensures
            final(self)@ == (DescriptorView { dirty: true, ..old(self)@ }),
    {
        self.dirty = true;
    }

    /// Clears the dirty bit and the pin count, for a frame that takes
    /// another page.
    pub fn reset(&mut self)
        ensures
            final(self)@ == (DescriptorView { dirty: false, pin_count: 0, ..old(self)@ }),
    {
        self.dirty = false;
        self.pin_count = 0;
    }
}

/// The descriptors of all frames, by index.
#[derive(Debug)]
pub struct Descriptors {
    pub items: Vec<Descriptor>,
}

impl Descriptors {
    /// Whether every descriptor carries its own index and that of its frame.
    pub open spec fn wf(&self) -> bool {
        forall|i: int|
            0 <= i < self.items@.len() ==> (#[trigger] self.items@[i])@.id.0 == i
                && self.items@[i]@.buffer_pool_id.0 == i
    }

    /// `size` clean, unpinned descriptors, one for each frame.
    pub fn new(size: usize) -> (r: Self)
        requires
            size > 0,
        ensures
            r.wf(),
            r.items@.len() == size,
            forall|i: int|
                0 <= i < size ==> !(#[trigger] r.items@[i])@.dirty && r.items@[i]@.pin_count == 0,
    {
        let mut items: Vec<Descriptor> = Vec::new();
        let mut n: usize = 0;
        while n < size
            invariant
                n <= size,
                items@.len() == n,
                forall|i: int|
                    0 <= i < n ==> (#[trigger] items@[i])@ == (DescriptorView {
                        id: DescriptorID(i as usize),
                        dirty: false,
                        buffer_pool_id: BufferPoolID(i as usize),
                        pin_count: 0,
                    }),
            decreases size - n,
        {
            let buffer_pool_id = BufferPoolID(n);
            let id = DescriptorID::from_buf_pool_id(buffer_pool_id);
            items.push(Descriptor::new(id, buffer_pool_id));
            n += 1;
        }
        Self { items }
    }

    /// The descriptor with the given index.
    pub fn get(&self, id: DescriptorID) -> (d: &Descriptor)
        requires
            id.0 < self.items@.len(),
        ensures
            *d == self.items@[id.0 as int],
    {
        &self.items[id.value()]
    }

    /// The descriptor with the given index, to change it.
    pub fn get_mut(&mut self, id: DescriptorID) -> (d: &mut Descriptor)
        requires
            id.0 < old(self).items@.len(),
        ensures
            *d == old(self).items@[id.0 as int],
            final(self).items@ == old(self).items@.update(id.0 as int, *final(d)),
    {
        &mut self.items[id.value()]
    }
}

} // verus!
