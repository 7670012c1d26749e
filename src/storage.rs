use ic_stable_structures::memory_manager::{MemoryId, MemoryManager, VirtualMemory};
use ic_stable_structures::{Cell, DefaultMemoryImpl, Memory, StableBTreeMap};
use vstd::bytes::spec_u32_from_le_bytes;
use vstd::prelude::*;

verus! {

/// The durable memory a store is laid over. A store takes it by value and
/// owns it from then on. Nothing else may use the same memory: on the
/// Internet Computer the default memory is the canister's one stable
/// memory, so build a value of this type once per process.
#[verifier::external_body]
pub struct DurableMemory {
    pub memory: DefaultMemoryImpl,
}

/// One region of a durable memory. Its holder is its only user: splitting
/// consumes the memory, and each cell or map consumes its region.
#[verifier::external_body]
pub struct Region {
    memory: VirtualMemory<DefaultMemoryImpl>,
}

/// A durable counter of type `u64`, the sole user of its region.
#[verifier::external_body]
pub struct IdCell {
    cell: Cell<u64, VirtualMemory<DefaultMemoryImpl>>,
}

/// A durable ordered map from identifiers to encoded posts, the sole user of
/// its region. The map is held here rather than declared, since its memory
/// type holds a `RefCell` that Verus does not support.
#[verifier::external_body]
pub struct PostMap {
    map: StableBTreeMap<u64, Vec<u8>, VirtualMemory<DefaultMemoryImpl>>,
}

/// The bytes a durable memory holds.
pub uninterp spec fn memory_bytes(m: DurableMemory) -> Seq<u8>;

/// The bytes a region holds.
pub uninterp spec fn region_bytes(r: Region) -> Seq<u8>;

/// The number of bytes in a page of durable memory.
pub const PAGE_BYTES: u64 = 65536;

/// The bytes `b[at..at + 3]` spell `magic`.
pub open spec fn has_magic(b: Seq<u8>, at: int, magic: Seq<u8>) -> bool {
    b.subrange(at, at + 3) == magic
}

/// A memory that the region manager lays out anew, or whose manager header
/// has the version it reads.
pub open spec fn manager_loadable(b: Seq<u8>) -> bool {
    b.len() == 0 || (b.len() >= 4 && (!has_magic(b, 0, seq![77u8, 71u8, 82u8]) || b[3] == 1))
}

/// A region that a cell lays out anew, or whose stored value it decodes as
/// a `u64`.
pub open spec fn cell_loadable(b: Seq<u8>) -> bool {
    b.len() == 0 || (b.len() >= 16 && (!has_magic(b, 0, seq![83u8, 67u8, 76u8]) || b[3] != 1
        || spec_u32_from_le_bytes(b.subrange(4, 8)) == 8))
}

/// A region that a map lays out anew, or whose map and allocator headers
/// have the versions it reads.
pub open spec fn map_loadable(b: Seq<u8>) -> bool {
    b.len() == 0 || (b.len() >= 56 && (!has_magic(b, 0, seq![66u8, 84u8, 82u8]) || (b[3] == 2
        && has_magic(b, 52, seq![66u8, 84u8, 65u8]) && b[55] == 1)))
}

/// The value a durable counter holds.
pub uninterp spec fn cell_value(c: IdCell) -> u64;

/// The entries a durable map holds.
pub uninterp spec fn map_entries(m: PostMap) -> Map<u64, Seq<u8>>;

impl DurableMemory {
    /// Relies on Memory::size: the size in pages of 64 KiB.
    #[verifier::external_body]
    pub fn pages(&self) -> (r: u64)
        ensures
            memory_bytes(*self).len() == r * PAGE_BYTES,
    {
        self.memory.size()
    }

    /// Relies on Memory::read: the bytes from `offset` on; it panics past
    /// the end, which `requires` leaves out.
    #[verifier::external_body]
    pub fn read_bytes(&self, offset: u64, len: usize) -> (r: Vec<u8>)
        requires
            offset + len <= memory_bytes(*self).len(),
        ensures
            r@ == memory_bytes(*self).subrange(offset as int, offset + len),
    {
        let mut buf = vec![0u8; len];
        self.memory.read(offset, &mut buf);
        buf
    }

    /// Relies on MemoryManager::init, which adopts the layout the memory
    /// holds or lays out a new one (it panics on a manager header of
    /// another version, which `requires` leaves out), and on
    /// MemoryManager::get and MemoryId::new (which panics on 255): two
    /// distinct regions.
    #[verifier::external_body]
    pub fn split(self, first: u8, second: u8) -> (r: (Region, Region))
        requires
            first < 255,
            second < 255,
            first != second,
            manager_loadable(memory_bytes(self)),
    {
        let manager = MemoryManager::init(self.memory);
        (
            Region { memory: manager.get(MemoryId::new(first)) },
            Region { memory: manager.get(MemoryId::new(second)) },
        )
    }
}

impl Region {
    /// Relies on Memory::size of a region: its size in pages of 64 KiB.
    #[verifier::external_body]
    pub fn pages(&self) -> (r: u64)
        ensures
            region_bytes(*self).len() == r * PAGE_BYTES,
    {
        self.memory.size()
    }

    /// Relies on Memory::read of a region: the bytes from `offset` on; it
    /// panics past the end, which `requires` leaves out.
    #[verifier::external_body]
    pub fn read_bytes(&self, offset: u64, len: usize) -> (r: Vec<u8>)
        requires
            offset + len <= region_bytes(*self).len(),
        ensures
            r@ == region_bytes(*self).subrange(offset as int, offset + len),
    {
        let mut buf = vec![0u8; len];
        self.memory.read(offset, &mut buf);
        buf
    }
}

impl IdCell {
    /// Relies on Cell::new: a cell that holds `value`, overwriting what the
    /// region held, or an error where the region cannot grow.
    #[verifier::external_body]
    pub fn create(region: Region, value: u64) -> (r: Option<IdCell>)
        ensures
            r matches Some(c) ==> cell_value(c) == value,
    {
        match Cell::new(region.memory, value) {
            Ok(cell) => Some(IdCell { cell }),
            Err(_) => None,
        }
    }

    /// Relies on Cell::init: the cell kept in the region, or a new one that
    /// holds `value` where the region holds none; an error on a layout of
    /// another version. It panics on a stored value that is not eight bytes,
    /// which `requires` leaves out.
    #[verifier::external_body]
    pub fn restore(region: Region, value: u64) -> (r: Option<IdCell>)
        requires
            cell_loadable(region_bytes(region)),
    {
        match Cell::init(region.memory, value) {
            Ok(cell) => Some(IdCell { cell }),
            Err(_) => None,
        }
    }

    /// Relies on Cell::get: the value held.
    #[verifier::external_body]
    pub fn get(&self) -> (r: u64)
        ensures
            r == cell_value(*self),
    {
        *self.cell.get()
    }

    /// Relies on Cell::set: the value is replaced. Its one error comes where
    /// the memory would have to grow, and a live cell already has a page,
    /// in which eight bytes fit; so here it does not fail.
    #[verifier::external_body]
    pub fn set(&mut self, value: u64)
        ensures
            cell_value(*final(self)) == value,
    {
        let _ = self.cell.set(value);
    }
}

impl PostMap {
    /// Relies on StableBTreeMap::new: an empty map, overwriting what the
    /// region held.
    #[verifier::external_body]
    pub fn create(region: Region) -> (r: PostMap)
        ensures
            map_entries(r).dom().is_empty(),
    {
        PostMap { map: StableBTreeMap::new(region.memory) }
    }

    /// Relies on StableBTreeMap::init: the map kept in the region, or an
    /// empty one where the region holds none. It panics on a map or
    /// allocator header of another version, and on a first-version map of
    /// unbounded values, which `requires` leaves out; nothing is claimed of
    /// the entries.
    #[verifier::external_body]
    pub fn restore(region: Region) -> (r: PostMap)
        requires
            map_loadable(region_bytes(region)),
    {
        PostMap { map: StableBTreeMap::init(region.memory) }
    }

    /// Relies on StableBTreeMap::get: the value under `key`, if any.
    #[verifier::external_body]
    pub fn get(&self, key: u64) -> (r: Option<Vec<u8>>)
        ensures
            r matches Some(v) ==> map_entries(*self).contains_key(key) && v@ == map_entries(*self)[key],
            r is None ==> !map_entries(*self).contains_key(key),
    {
        self.map.get(&key)
    }

    /// Relies on StableBTreeMap::last_key_value: the largest key, if any.
    #[verifier::external_body]
    pub fn last_key(&self) -> (r: Option<u64>)
        ensures
            r matches Some(k) ==> map_entries(*self).contains_key(k) && forall|j: u64|
                map_entries(*self).contains_key(j) ==> j <= k,
            r is None ==> map_entries(*self).dom().is_empty(),
    {
        self.map.last_key_value().map(|(k, _)| k)
    }

    /// Relies on StableBTreeMap::insert: `key` now maps to `value`.
    #[verifier::external_body]
    pub fn insert(&mut self, key: u64, value: Vec<u8>)
        ensures
            map_entries(*final(self)) == map_entries(*old(self)).insert(key, value@),
    {
        self.map.insert(key, value);
    }

    /// Relies on StableBTreeMap::remove: `key` no longer has a value.
    #[verifier::external_body]
    pub fn remove(&mut self, key: u64)
        ensures
            map_entries(*final(self)) == map_entries(*old(self)).remove(key),
    {
        self.map.remove(&key);
    }
}

} // verus!
