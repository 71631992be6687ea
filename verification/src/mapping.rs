//! The mapping handle: a read-only, OS-backed byte view of one file.
//!
//! The model fixes a mapping's bytes at the moment the handle is created;
//! a later write to the underlying file is reflected in the model only when
//! the change observer replaces the cache entry with a fresh mapping.

use vstd::prelude::*;

verus! {

#[verifier::external_type_specification]
#[verifier::external_body]
pub struct ExMmap(memmap2::Mmap);

/// A read-only byte view of a file, backed by an OS page mapping that is
/// released when the handle is dropped.
pub struct FileMapping {
    map: memmap2::Mmap,
    contents: Ghost<Seq<u8>>,
}

impl View for FileMapping {
    type V = Seq<u8>;

    closed spec fn view(&self) -> Seq<u8> {
        self.contents@
    }
}

impl FileMapping {
    /// Relies on memmap2's `MmapMut::map_anon` and `MmapMut::make_read_only`:
    /// an anonymous read-only mapping holding exactly the given bytes, or
    /// `None` when the operating system refuses the mapping (it always does
    /// for zero bytes).
    #[verifier::external_body]
    pub fn from_bytes(bytes: &Vec<u8>) -> (r: Option<FileMapping>)
        ensures
            r matches Some(m) ==> m@ == bytes@,
    {
        let mut mm = match memmap2::MmapMut::map_anon(bytes.len()) {
            Ok(mm) => mm,
            Err(_) => return None,
        };
        mm.copy_from_slice(bytes.as_slice());
        match mm.make_read_only() {
            Ok(map) => Some(FileMapping { map, contents: Ghost(Seq::empty()) }),
            Err(_) => None,
        }
    }

    /// Wrap a mapping made elsewhere, typically by mapping a file that was
    /// opened read-only. Nothing is known of the modelled contents.
    #[verifier::external_body]
    pub fn from_mmap(map: memmap2::Mmap) -> (r: FileMapping)
    {
        FileMapping { map, contents: Ghost(Seq::empty()) }
    }

    /// Borrow the mapped bytes.
    ///
    /// Relies on memmap2's `Deref` for `Mmap`: the slice covers the whole
    /// mapping, whose bytes the model holds.
    #[verifier::external_body]
    pub(crate) fn bytes(&self) -> (r: &[u8])
        ensures
            r@ == self@,
    {
        &self.map[..]
    }
}

} // verus!
