//! A single-file fragment store: a container that maps stable integer ids to versioned byte
//! blobs, each held in a page-aligned extent of one backing byte stream.
use vstd::prelude::*;

pub mod error;
pub mod codec;
pub mod backing;
pub mod table;
pub mod index;
pub mod free_space;
pub mod persist;
pub mod fragment;
pub mod store;
pub mod section;
pub mod laws;
pub mod record;

use crate::backing::MemoryBacking;
use crate::error::{Error, Result};
use crate::fragment::FragmentHandle;
use crate::store::RWFragmentStore;

verus! {

/// Identifier of a fragment. Id 0 is reserved for the root placeholder.
pub type FragmentID = u64;

/// Byte offset into the backing stream. Zero terminates a chain of table chunks.
pub type Pointer = u64;

/// Alignment and minimum allocation unit of the store.
pub const PAGE_SIZE: u64 = 4096;

/// A value that a fragment may hold.
pub enum Value {
    /// A deleted value.
    Tombstone,
    /// An empty value.
    Nothing,
    /// Raw bytes for the user to interpret.
    Blob(Vec<u8>),
    /// A collection of other fragments.
    Collection { expected_length: u64, continuation: Option<FragmentID>, page: Vec<FragmentID> },
}

/// A token that a caller hands over to confirm a destructive operation.
pub struct Danger;

/// The entry point to a store over one backing stream.
#[derive(Debug)]
pub struct Database {
    data_source: RWFragmentStore,
}

impl Database {
    pub closed spec fn store(&self) -> RWFragmentStore {
        self.data_source
    }

    /// Opens the container held by `backing`.
    pub fn new(backing: MemoryBacking) -> (r: Result<Database>)
        ensures
            match r {
                Ok(db) => crate::persist::index_from(backing.bytes(), Ok(db.store().header))
                    && db.store().backing.bytes() == backing.bytes() && db.store().wf(),
                Err(e) => crate::persist::index_from(backing.bytes(), Err(e)),
            },
    {
        let data_source = RWFragmentStore::new(backing)?;
        Ok(Database { data_source })
    }

    /// Writes a blank container over `backing`, whatever it held, and returns the stream.
    pub fn destructive_reinitialise(backing: MemoryBacking, _danger: Danger) -> (r: Result<MemoryBacking>)
        ensures
            r matches Ok(b) && b.bytes() == crate::store::blank_image(backing.bytes()),
    {
        let store = RWFragmentStore::blank(backing)?;
        Ok(store.backing)
    }

    pub fn data_source(&self) -> (r: &RWFragmentStore)
        ensures
            *r == self.store(),
    {
        &self.data_source
    }

    pub fn data_source_mut(&mut self) -> (r: &mut RWFragmentStore)
        ensures
            *r == old(self).store(),
            final(self).store() == *final(r),
    {
        &mut self.data_source
    }

    pub fn backing_mut(&mut self) -> (r: &mut MemoryBacking)
        ensures
            *r == old(self).store().backing,
            final(self).store().backing == *final(r),
            final(self).store().header == old(self).store().header,
    {
        &mut self.data_source.backing
    }

    pub fn backing(&self) -> (r: &MemoryBacking)
        ensures
            *r == self.store().backing,
    {
        &self.data_source.backing
    }

    /// Flushes the backing stream.
    pub fn flush(&mut self) -> (r: Result<()>)
        ensures
            r is Ok,
            final(self).store().backing.bytes() == old(self).store().backing.bytes(),
            final(self).store().header == old(self).store().header,
    {
        self.data_source.backing.flush();
        Ok(())
    }

    /// Opens the latest version of fragment `id` for reading.
    pub fn open_fragment(&self, id: FragmentID) -> (r: Result<FragmentHandle>)
        requires
            self.store().wf(),
        ensures
            r matches Ok(h) ==> h.wf(),
            !crate::store::has_id(self.store().header.table(), id) ==> r == Err::<FragmentHandle, Error>(
                Error::Fragment(crate::error::FragmentError::NoFound(id)),
            ),
            crate::store::has_id(self.store().header.table(), id) ==> exists|i: int|
                #[trigger] crate::store::is_latest(self.store().header.table(), id, i) && (r matches Ok(h)
                    && h.id == id && h.sequence == self.store().header.table()[i].sequence
                    && (h.fragment_type matches crate::fragment::FragmentType::ReadOnly(f) && f == (crate::fragment::SizedFragment {
                    cursor: 0,
                    ptr: self.store().header.table()[i].offset,
                    size: self.store().header.table()[i].length,
                    max_size: None,
                }))),
    {
        self.data_source.open_fragment(id)
    }
}

} // verus!
