//! Entity id allocation: generations, a free list, and ids reserved ahead of `flush`.
use vstd::prelude::*;

verus! {

/// A table id, a table row, an archetype id or an archetype row of this value is invalid.
pub const INVALID_INDEX: u32 = u32::MAX;

/// A generation advanced `by` steps, wrapping past `u32::MAX`.
pub open spec fn next_generation(generation: u32, by: u32) -> u32 {
    ((generation as int + by as int) % 0x1_0000_0000) as u32
}

pub fn advance_generation(generation: u32, by: u32) -> (r: u32)
    ensures
        r == next_generation(generation, by),
{
    ((generation as u64 + by as u64) % 0x1_0000_0000u64) as u32
}

/// An entity id: a slot index and the generation of that slot.
#[derive(Clone, Copy, Debug, PartialEq, Eq, Hash, Structural)]
pub struct Entity {
    pub index: u32,
    pub generation: u32,
}

impl Entity {
    /// The 64-bit key: generation in the high half, index in the low half.
    pub fn to_bits(&self) -> (r: u64)
        ensures
            r == self.generation as u64 * 0x1_0000_0000u64 + self.index as u64,
    {
        let g = self.generation as u64;
        let i = self.index as u64;
        let r = (g << 32u64) | i;
        assert(r == g * 0x1_0000_0000u64 + i) by (bit_vector)
            requires
                r == (g << 32u64) | i,
                g < 0x1_0000_0000u64,
                i < 0x1_0000_0000u64,
        ;
        r
    }

    /// The entity of a 64-bit key.
    pub fn from_bits(bits: u64) -> (r: Entity)
        ensures
            r.generation as u64 * 0x1_0000_0000u64 + r.index as u64 == bits,
    {
        let generation = (bits >> 32u64) as u32;
        let index = (bits & 0xffff_ffffu64) as u32;
        assert((bits >> 32u64) * 0x1_0000_0000u64 + (bits & 0xffff_ffffu64) == bits) by (bit_vector);
        assert(bits >> 32u64 <= 0xffff_ffffu64) by (bit_vector);
        assert(bits & 0xffff_ffffu64 <= 0xffff_ffffu64) by (bit_vector);
        Entity { generation, index }
    }
}

/// Id of a table within a world.
#[derive(Debug, Clone, Copy, PartialEq, Eq, Structural)]
pub struct TableId(pub u32);

impl TableId {
    pub fn new(index: usize) -> (r: TableId)
        ensures
            r.0 == index as u32,
    {
        TableId(index as u32)
    }

    pub fn index(self) -> (r: usize)
        ensures
            r == self.0 as usize,
    {
        self.0 as usize
    }

    /// The table without components.
    pub fn empty() -> (r: TableId)
        ensures
            r.0 == 0,
    {
        TableId(0)
    }

    pub fn invalid() -> (r: TableId)
        ensures
            r.0 == INVALID_INDEX,
    {
        TableId(INVALID_INDEX)
    }
}

/// A row of a table.
#[derive(Debug, Clone, Copy, PartialEq, Eq, Structural)]
pub struct TableRow(pub u32);

impl TableRow {
    pub fn new(index: usize) -> (r: TableRow)
        ensures
            r.0 == index as u32,
    {
        TableRow(index as u32)
    }

    pub fn index(self) -> (r: usize)
        ensures
            r == self.0 as usize,
    {
        self.0 as usize
    }

    pub fn invalid() -> (r: TableRow)
        ensures
            r.0 == INVALID_INDEX,
    {
        TableRow(INVALID_INDEX)
    }
}

/// Id of an archetype within a world.
#[derive(Debug, Clone, Copy, PartialEq, Eq, Hash, Structural)]
pub struct ArchetypeId(pub u32);

impl ArchetypeId {
    pub fn new(index: usize) -> (r: ArchetypeId)
        ensures
            r.0 == index as u32,
    {
        ArchetypeId(index as u32)
    }

    pub fn index(self) -> (r: usize)
        ensures
            r == self.0 as usize,
    {
        self.0 as usize
    }

    /// The archetype without components.
    pub fn empty() -> (r: ArchetypeId)
        ensures
            r.0 == 0,
    {
        ArchetypeId(0)
    }

    pub fn invalid() -> (r: ArchetypeId)
        ensures
            r.0 == INVALID_INDEX,
    {
        ArchetypeId(INVALID_INDEX)
    }
}

/// A row of an archetype.
#[derive(Debug, Clone, Copy, PartialEq, Eq, Structural)]
pub struct ArchetypeRow(pub u32);

impl ArchetypeRow {
    pub fn new(index: usize) -> (r: ArchetypeRow)
        ensures
            r.0 == index as u32,
    {
        ArchetypeRow(index as u32)
    }

    pub fn index(self) -> (r: usize)
        ensures
            r == self.0 as usize,
    {
        self.0 as usize
    }

    pub fn invalid() -> (r: ArchetypeRow)
        ensures
            r.0 == INVALID_INDEX,
    {
        ArchetypeRow(INVALID_INDEX)
    }
}

/// Where an entity's components are stored.
#[derive(Copy, Clone, Debug, PartialEq, Eq, Structural)]
pub struct EntityLocation {
    pub archetype_id: ArchetypeId,
    pub archetype_row: ArchetypeRow,
    pub table_id: TableId,
    pub table_row: TableRow,
}

impl EntityLocation {
    pub open spec fn is_invalid(&self) -> bool {
        &&& self.archetype_id.0 == INVALID_INDEX
        &&& self.archetype_row.0 == INVALID_INDEX
        &&& self.table_id.0 == INVALID_INDEX
        &&& self.table_row.0 == INVALID_INDEX
    }

    /// The location of a pending or freed entity.
    pub fn invalid() -> (r: EntityLocation)
        ensures
            r.is_invalid(),
    {
        EntityLocation {
            archetype_id: ArchetypeId::invalid(),
            archetype_row: ArchetypeRow::invalid(),
            table_id: TableId::invalid(),
            table_row: TableRow::invalid(),
        }
    }
}

/// The metadata of a slot that was never used.
pub open spec fn fresh_meta() -> EntityMeta {
    EntityMeta {
        generation: 0,
        location: EntityLocation {
            archetype_id: ArchetypeId(INVALID_INDEX),
            archetype_row: ArchetypeRow(INVALID_INDEX),
            table_id: TableId(INVALID_INDEX),
            table_row: TableRow(INVALID_INDEX),
        },
    }
}

/// Generation and location of one slot.
#[derive(Copy, Clone, Debug, PartialEq, Eq, Structural)]
pub struct EntityMeta {
    pub generation: u32,
    pub location: EntityLocation,
}

impl EntityMeta {
    pub fn empty() -> (r: EntityMeta)
        ensures
            r.generation == 0,
            r.location.is_invalid(),
    {
        EntityMeta { generation: 0, location: EntityLocation::invalid() }
    }
}

/// What `Entities::alloc_at_without_replacement` found at the slot it allocated.
#[derive(Clone, Copy, Debug, PartialEq, Eq, Structural)]
pub enum AllocAtWithoutReplacement {
    Exists(EntityLocation),
    DidNotExist,
    ExistsWithWrongGeneration,
}

/// The entities reserved by one call of `Entities::reserve_entities`, handed out in order.
pub struct ReserveEntitiesIterator {
    entities: Vec<Entity>,
    next: usize,
}

impl ReserveEntitiesIterator {
    pub closed spec fn remaining(&self) -> Seq<Entity> {
        self.entities@.skip(self.next as int)
    }

    pub closed spec fn wf(&self) -> bool {
        self.next <= self.entities@.len()
    }

    /// The next reserved entity.
    pub fn next(&mut self) -> (r: Option<Entity>)
        requires
            old(self).wf(),
        ensures
            final(self).wf(),
            old(self).remaining().len() == 0 ==> r.is_none() && final(self).remaining() == old(self).remaining(),
            old(self).remaining().len() > 0 ==> r == Some(old(self).remaining()[0])
                && final(self).remaining() == old(self).remaining().drop_first(),
    {
        if self.next < self.entities.len() {
            let e = self.entities[self.next];
            self.next = self.next + 1;
            proof {
                assert(self.remaining() =~= old(self).remaining().drop_first());
            }
            Some(e)
        } else {
            None
        }
    }

    /// How many entities are left.
    pub fn len(&self) -> (r: usize)
        requires
            self.wf(),
        ensures
            r == self.remaining().len(),
    {
        self.entities.len() - self.next
    }
}

/// Metadata of every entity slot: generations, locations, and the free list with the
/// ids reserved from it.
///
/// `pending[..free_cursor]` are free slots; `pending[free_cursor..]` were reserved and wait
/// for `flush`. A negative `free_cursor` counts ids reserved past the end of `meta`.
pub struct Entities {
    meta: Vec<EntityMeta>,
    pending: Vec<u32>,
    free_cursor: i64,
    len: u32,
}

impl Entities {
    pub closed spec fn meta_view(&self) -> Seq<EntityMeta> {
        self.meta@
    }

    pub closed spec fn pending_view(&self) -> Seq<u32> {
        self.pending@
    }

    pub closed spec fn cursor(&self) -> int {
        self.free_cursor as int
    }

    pub closed spec fn len_spec(&self) -> nat {
        self.len as nat
    }

    pub open spec fn flushed(&self) -> bool {
        self.cursor() == self.pending_view().len()
    }

    pub open spec fn wf(&self) -> bool {
        &&& self.meta_view().len() <= u32::MAX
        &&& self.pending_view().len() <= u32::MAX
        &&& self.cursor() <= self.pending_view().len()
        &&& self.cursor() >= -(u32::MAX as int)
        &&& forall|i: int|
            0 <= i < self.pending_view().len() ==> (#[trigger] self.pending_view()[i] as int)
                < self.meta_view().len()
        &&& self.pending_view().no_duplicates()
    }

    /// The entities that `reserve_entities(count)` hands out: reserved free slots, newest
    /// free first by position in the free list, then fresh ids past the end of `meta`.
    pub open spec fn reserved(&self, count: int) -> Seq<Entity> {
        let end = self.cursor();
        let start = end - count;
        let lo = if start > 0 { start } else { 0 };
        let hi = if end > 0 { end } else { 0 };
        let base = self.meta_view().len() as int;
        let from_free = Seq::new(
            (hi - lo) as nat,
            |k: int|
                Entity {
                    index: self.pending_view()[lo + k],
                    generation: self.meta_view()[self.pending_view()[lo + k] as int].generation,
                },
        );
        let new_start = base - (if end < 0 { end } else { 0 });
        let new_end = if start < 0 { base - start } else { new_start };
        let fresh = Seq::new(
            (new_end - new_start) as nat,
            |k: int| Entity { index: (new_start + k) as u32, generation: 0 },
        );
        from_free + fresh
    }

    /// The entities of one reservation have distinct indices.
    pub proof fn lemma_reserved_distinct(&self, count: int)
        requires
            self.wf(),
            count >= 0,
            self.meta_view().len() - (self.cursor() - count) <= u32::MAX,
        ensures
            forall|a: int, b: int|
                0 <= a < self.reserved(count).len() && 0 <= b < self.reserved(count).len() && a != b
                    ==> #[trigger] self.reserved(count)[a].index != #[trigger] self.reserved(count)[b].index,
    {
        let end = self.cursor();
        let start = end - count;
        let lo = if start > 0 { start } else { 0 };
        let hi = if end > 0 { end } else { 0 };
        let base = self.meta_view().len() as int;
        let nf = hi - lo;
        let new_start = base - (if end < 0 { end } else { 0 });
        let rs = self.reserved(count);
        assert forall|a: int, b: int|
            0 <= a < rs.len() && 0 <= b < rs.len() && a != b implies #[trigger] rs[a].index != #[trigger] rs[b].index by {
            if a < nf {
                assert(rs[a].index == self.pending_view()[lo + a]);
                assert((self.pending_view()[lo + a] as int) < base);
            }
            if b < nf {
                assert(rs[b].index == self.pending_view()[lo + b]);
                assert((self.pending_view()[lo + b] as int) < base);
            }
            if a >= nf {
                assert(rs[a].index == (new_start + (a - nf)) as u32);
            }
            if b >= nf {
                assert(rs[b].index == (new_start + (b - nf)) as u32);
            }
        }
    }

    pub fn new() -> (r: Entities)
        ensures
            r.wf(),
            r.flushed(),
            r.meta_view().len() == 0,
            r.pending_view().len() == 0,
            r.len_spec() == 0,
    {
        Entities { meta: Vec::new(), pending: Vec::new(), free_cursor: 0, len: 0 }
    }

    /// Reserves `count` ids at once; `flush` makes them live.
    pub fn reserve_entities(&mut self, count: u32) -> (r: ReserveEntitiesIterator)
        requires
            old(self).wf(),
            old(self).meta_view().len() - (old(self).cursor() - count) <= u32::MAX,
            old(self).cursor() - count >= -(u32::MAX as int),
        ensures
            final(self).wf(),
            r.wf(),
            r.remaining() == old(self).reserved(count as int),
            forall|a: int, b: int|
                0 <= a < r.remaining().len() && 0 <= b < r.remaining().len() && a != b ==> #[trigger] r.remaining()[a].index
                    != #[trigger] r.remaining()[b].index,
            final(self).cursor() == old(self).cursor() - count,
            final(self).meta_view() == old(self).meta_view(),
            final(self).pending_view() == old(self).pending_view(),
            final(self).len_spec() == old(self).len_spec(),
    {
        let range_end: i64 = self.free_cursor;
        let range_start: i64 = range_end - count as i64;
        self.free_cursor = range_start;
        let lo: usize = if range_start > 0 { range_start as usize } else { 0 };
        let hi: usize = if range_end > 0 { range_end as usize } else { 0 };
        let ghost want = old(self).reserved(count as int);
        let mut out: Vec<Entity> = Vec::new();
        let mut k: usize = lo;
        while k < hi
            invariant
                lo <= k <= hi,
                hi <= self.pending@.len(),
                self.meta@ == old(self).meta@,
                self.pending@ == old(self).pending@,
                old(self).wf(),
                want == old(self).reserved(count as int),
                lo == (if range_start > 0 { range_start as int } else { 0 }),
                hi == (if range_end > 0 { range_end as int } else { 0 }),
                range_end == old(self).free_cursor,
                range_start == range_end - count,
                out@.len() == k - lo,
                forall|j: int| 0 <= j < out@.len() ==> #[trigger] out@[j] == want[j],
            decreases hi - k,
        {
            let idx = self.pending[k];
            proof {
                assert(old(self).pending_view()[k as int] == idx);
            }
            let e = Entity { index: idx, generation: self.meta[idx as usize].generation };
            out.push(e);
            k += 1;
        }
        let base: i64 = self.meta.len() as i64;
        let new_start: i64 = base - (if range_end < 0 { range_end } else { 0 });
        let new_end: i64 = if range_start < 0 { base - range_start } else { new_start };
        let mut n: i64 = new_start;
        while n < new_end
            invariant
                new_start <= n <= new_end,
                new_end <= u32::MAX + 1,
                self.meta@ == old(self).meta@,
                self.pending@ == old(self).pending@,
                want == old(self).reserved(count as int),
                base == old(self).meta@.len(),
                lo == (if range_start > 0 { range_start as int } else { 0 }),
                hi == (if range_end > 0 { range_end as int } else { 0 }),
                range_end == old(self).free_cursor,
                range_start == range_end - count,
                new_start == base - (if range_end < 0 { range_end as int } else { 0 }),
                new_end == (if range_start < 0 { base - range_start } else { new_start as int }),
                out@.len() == (hi - lo) + (n - new_start),
                forall|j: int| 0 <= j < out@.len() ==> #[trigger] out@[j] == want[j],
            decreases new_end - n,
        {
            out.push(Entity { index: n as u32, generation: 0 });
            n += 1;
        }
        proof {
            assert(out@ =~= want);
        }
        let r = ReserveEntitiesIterator { entities: out, next: 0 };
        proof {
            assert(r.remaining() =~= out@);
            old(self).lemma_reserved_distinct(count as int);
        }
        r
    }

    /// Reserves one id; `flush` makes it live.
    pub fn reserve_entity(&mut self) -> (r: Entity)
        requires
            old(self).wf(),
            old(self).meta_view().len() - (old(self).cursor() - 1) <= u32::MAX,
            old(self).cursor() - 1 >= -(u32::MAX as int),
        ensures
            final(self).wf(),
            seq![r] == old(self).reserved(1),
            final(self).cursor() == old(self).cursor() - 1,
            final(self).meta_view() == old(self).meta_view(),
            final(self).pending_view() == old(self).pending_view(),
            final(self).len_spec() == old(self).len_spec(),
    {
        let n = self.free_cursor;
        self.free_cursor = n - 1;
        let ghost want = old(self).reserved(1);
        if n > 0 {
            let index = self.pending[(n - 1) as usize];
            let r = Entity { index, generation: self.meta[index as usize].generation };
            proof {
                assert(seq![r] =~= want);
            }
            r
        } else {
            let r = Entity { index: (self.meta.len() as i64 - n) as u32, generation: 0 };
            proof {
                assert(seq![r] =~= want);
            }
            r
        }
    }

    /// Whether no reserved id is waiting for `flush`.
    pub fn verify_flushed(&self) -> (r: bool)
        requires
            self.wf(),
        ensures
            r == self.flushed(),
    {
        !self.needs_flush()
    }

    /// Whether some reserved id is waiting for `flush`.
    pub fn needs_flush(&self) -> (r: bool)
        requires
            self.wf(),
        ensures
            r == !self.flushed(),
    {
        self.free_cursor != self.pending.len() as i64
    }

    /// Allocates an id directly, reusing the most recently freed slot first.
    pub fn allocate(&mut self) -> (r: Entity)
        requires
            old(self).wf(),
            old(self).flushed(),
            old(self).meta_view().len() < u32::MAX,
            old(self).len_spec() < u32::MAX,
        ensures
            final(self).wf(),
            final(self).flushed(),
            final(self).len_spec() == old(self).len_spec() + 1,
            old(self).pending_view().len() > 0 ==> {
                let idx = old(self).pending_view().last();
                &&& r == (Entity { index: idx, generation: old(self).meta_view()[idx as int].generation })
                &&& final(self).pending_view() == old(self).pending_view().drop_last()
                &&& final(self).meta_view() == old(self).meta_view()
            },
            old(self).pending_view().len() == 0 ==> {
                &&& r == (Entity { index: old(self).meta_view().len() as u32, generation: 0 })
                &&& final(self).pending_view() == old(self).pending_view()
                &&& final(self).meta_view().len() == old(self).meta_view().len() + 1
                &&& final(self).meta_view().last().generation == 0
                &&& final(self).meta_view().last().location.is_invalid()
                &&& final(self).meta_view().drop_last() == old(self).meta_view()
            },
    {
        self.len = self.len + 1;
        match self.pending.pop() {
            Some(index) => {
                self.free_cursor = self.pending.len() as i64;
                proof {
                    assert(old(self).pending_view()[old(self).pending_view().len() - 1] == index);
                    assert forall|i: int| 0 <= i < self.pending@.len() implies (#[trigger] self.pending@[i] as int)
                        < self.meta@.len() by {
                        assert(self.pending@[i] == old(self).pending@[i]);
                    }
                }
                Entity { index, generation: self.meta[index as usize].generation }
            },
            None => {
                let index = self.meta.len() as u32;
                self.meta.push(EntityMeta::empty());
                proof {
                    assert(self.meta@.drop_last() =~= old(self).meta@);
                }
                Entity { index, generation: 0 }
            },
        }
    }

    /// Frees an entity so that its slot can be reused with the next generation. Returns
    /// its location, or `None` when the generation does not match.
    pub fn free(&mut self, entity: Entity) -> (r: Option<EntityLocation>)
        requires
            old(self).wf(),
            old(self).flushed(),
            (entity.index as int) < old(self).meta_view().len(),
            old(self).pending_view().len() < u32::MAX,
        ensures
            final(self).wf(),
            final(self).flushed(),
            old(self).meta_view()[entity.index as int].generation != entity.generation
                || old(self).pending_view().contains(entity.index) ==> r.is_none() && *final(self) == *old(self),
            old(self).meta_view()[entity.index as int].generation == entity.generation
                && !old(self).pending_view().contains(entity.index) ==> {
                &&& r == Some(old(self).meta_view()[entity.index as int].location)
                &&& final(self).meta_view()[entity.index as int].generation == next_generation(
                    entity.generation,
                    1,
                )
                &&& final(self).meta_view()[entity.index as int].location.is_invalid()
                &&& final(self).meta_view().len() == old(self).meta_view().len()
                &&& forall|i: int|
                    0 <= i < old(self).meta_view().len() && i != entity.index ==> #[trigger] final(self).meta_view()[i] == old(self).meta_view()[i]
                &&& final(self).pending_view() == old(self).pending_view().push(entity.index)
                &&& final(self).len_spec() == if old(self).len_spec() > 0 {
                    (old(self).len_spec() - 1) as nat
                } else {
                    0
                }
            },
    {
        let i = entity.index as usize;
        let meta = self.meta[i];
        if meta.generation != entity.generation {
            return None;
        }
        if self.pending_position(entity.index).is_some() {
            return None;
        }
        let loc = meta.location;
        let new_meta = EntityMeta {
            generation: advance_generation(meta.generation, 1),
            location: EntityLocation::invalid(),
        };
        self.meta.set(i, new_meta);
        self.pending.push(entity.index);
        self.free_cursor = self.pending.len() as i64;
        self.len = if self.len > 0 { self.len - 1 } else { 0 };
        proof {
            assert forall|k: int| 0 <= k < self.pending@.len() implies (#[trigger] self.pending@[k] as int)
                < self.meta@.len() by {
                if k < old(self).pending@.len() {
                    assert(self.pending@[k] == old(self).pending@[k]);
                }
            }
            assert forall|a: int, b: int|
                0 <= a < self.pending@.len() && 0 <= b < self.pending@.len() && a != b implies self.pending@[a]
                != self.pending@[b] by {
                let n = old(self).pending@.len() as int;
                if a < n && b < n {
                    assert(self.pending@[a] == old(self).pending@[a] && self.pending@[b] == old(self).pending@[b]);
                } else if a < n {
                    assert(self.pending@[a] == old(self).pending@[a]);
                    assert(old(self).pending@.contains(old(self).pending@[a]));
                } else {
                    assert(self.pending@[b] == old(self).pending@[b]);
                    assert(old(self).pending@.contains(old(self).pending@[b]));
                }
            }
        }
        Some(loc)
    }

    /// Makes room for `additional` allocations.
    pub fn reserve(&mut self, additional: u32)
        requires
            old(self).wf(),
        ensures
            final(self).meta_view() == old(self).meta_view(),
            final(self).pending_view() == old(self).pending_view(),
            final(self).cursor() == old(self).cursor(),
            final(self).len_spec() == old(self).len_spec(),
    {
        let shortfall: i64 = additional as i64 - self.free_cursor;
        if shortfall > 0 {
            self.meta.reserve(shortfall as usize);
        }
    }

    /// Whether `entity` is the current generation of a known slot.
    pub fn contains(&self, entity: Entity) -> (r: bool)
        requires
            self.wf(),
        ensures
            r == ((entity.index as int) < self.meta_view().len() && self.meta_view()[entity.index as int].generation
                == entity.generation) || ((entity.index as int) >= self.meta_view().len() && entity.generation == 0
                && self.cursor() < 0 && (entity.index as int) < self.meta_view().len() - self.cursor()),
    {
        match self.resolve_from_id(entity.index) {
            Some(e) => e.generation == entity.generation,
            None => false,
        }
    }

    /// Forgets every entity.
    pub fn clear(&mut self)
        ensures
            final(self).wf(),
            final(self).flushed(),
            final(self).meta_view().len() == 0,
            final(self).pending_view().len() == 0,
            final(self).len_spec() == 0,
    {
        self.meta.clear();
        self.pending.clear();
        self.free_cursor = 0;
        self.len = 0;
    }

    /// The location of a live entity of the current generation.
    pub fn get(&self, entity: Entity) -> (r: Option<EntityLocation>)
        ensures
            ({
                let ok = (entity.index as int) < self.meta_view().len() && self.meta_view()[entity.index as int].generation
                    == entity.generation && self.meta_view()[entity.index as int].location.archetype_id.0
                    != INVALID_INDEX;
                &&& ok ==> r == Some(self.meta_view()[entity.index as int].location)
                &&& !ok ==> r.is_none()
            }),
    {
        let i = entity.index as usize;
        if i < self.meta.len() {
            let meta = self.meta[i];
            if meta.generation != entity.generation || meta.location.archetype_id.0 == INVALID_INDEX {
                return None;
            }
            Some(meta.location)
        } else {
            None
        }
    }

    /// Skips `generations` generations of a slot that holds no live entity. Returns whether
    /// the slot was advanced.
    pub fn reserve_generations(&mut self, index: u32, generations: u32) -> (r: bool)
        requires
            old(self).wf(),
        ensures
            final(self).wf(),
            r == ((index as int) < old(self).meta_view().len() && old(self).meta_view()[index as int].location.archetype_id.0
                == INVALID_INDEX),
            r ==> final(self).meta_view() == old(self).meta_view().update(
                index as int,
                EntityMeta {
                    generation: next_generation(old(self).meta_view()[index as int].generation, generations),
                    location: old(self).meta_view()[index as int].location,
                },
            ),
            !r ==> *final(self) == *old(self),
            final(self).pending_view() == old(self).pending_view(),
            final(self).cursor() == old(self).cursor(),
            final(self).len_spec() == old(self).len_spec(),
    {
        if (index as usize) >= self.meta.len() {
            return false;
        }
        let meta = self.meta[index as usize];
        if meta.location.archetype_id.0 == INVALID_INDEX {
            let m = EntityMeta { generation: advance_generation(meta.generation, generations), location: meta.location };
            self.meta.set(index as usize, m);
            true
        } else {
            false
        }
    }

    /// The entity currently using slot `index`, including a reserved one not yet flushed.
    pub fn resolve_from_id(&self, index: u32) -> (r: Option<Entity>)
        requires
            self.wf(),
        ensures
            (index as int) < self.meta_view().len() ==> r == Some(
                Entity { index, generation: self.meta_view()[index as int].generation },
            ),
            (index as int) >= self.meta_view().len() ==> (r.is_some() <==> (self.cursor() < 0 && (index as int)
                < self.meta_view().len() - self.cursor())),
            (index as int) >= self.meta_view().len() && r.is_some() ==> r == Some(Entity { index, generation: 0 }),
    {
        let idu = index as usize;
        if idu < self.meta.len() {
            Some(Entity { index, generation: self.meta[idu].generation })
        } else {
            let free_cursor = self.free_cursor;
            if free_cursor >= 0 {
                return None;
            }
            let num_pending: u64 = (-free_cursor) as u64;
            if (idu as u64) < self.meta.len() as u64 + num_pending {
                Some(Entity { index, generation: 0 })
            } else {
                None
            }
        }
    }

    /// Makes every reserved id live with an invalid location.
    pub fn flush_as_invalid(&mut self)
        requires
            old(self).wf(),
            old(self).len_spec() + old(self).pending_view().len() - old(self).cursor() <= u32::MAX,
            old(self).meta_view().len() - old(self).cursor() <= u32::MAX,
        ensures
            final(self).wf(),
            final(self).flushed(),
            old(self).cursor() >= 0 ==> final(self).pending_view() == old(self).pending_view().take(
                old(self).cursor(),
            ) && final(self).meta_view().len() == old(self).meta_view().len(),
            old(self).cursor() < 0 ==> final(self).pending_view().len() == 0
                && final(self).meta_view().len() == old(self).meta_view().len() - old(self).cursor(),
            final(self).len_spec() == old(self).len_spec() + (old(self).pending_view().len() - (if old(self).cursor() >= 0 {
                old(self).cursor()
            } else {
                0
            })) + (if old(self).cursor() < 0 {
                -old(self).cursor()
            } else {
                0
            }),
            forall|i: int|
                #![trigger final(self).meta_view()[i]]
                old(self).meta_view().len() <= i < final(self).meta_view().len() ==> final(self).meta_view()[i].generation == 0
                    && final(self).meta_view()[i].location.is_invalid(),
            forall|i: int|
                0 <= i < old(self).meta_view().len() ==> #[trigger] final(self).meta_view()[i].generation
                    == old(self).meta_view()[i].generation,
    {
        let current = self.free_cursor;
        let keep: usize;
        if current >= 0 {
            keep = current as usize;
        } else {
            let extra: usize = (-current) as usize;
            let mut k: usize = 0;
            proof {
                assert(current < 0);
            }
            let ghost m0 = self.meta@;
            while k < extra
                invariant
                    k <= extra,
                    extra as int == -(old(self).free_cursor as int),
                    self.len == old(self).len,
                    self.pending@ == old(self).pending@,
                    self.meta@.len() == m0.len() + k,
                    m0 == old(self).meta@,
                    m0.len() + extra <= u32::MAX,
                    forall|i: int| 0 <= i < m0.len() ==> #[trigger] self.meta@[i] == m0[i],
                    forall|i: int|
                        #![trigger self.meta@[i]]
                        m0.len() <= i < self.meta@.len() ==> self.meta@[i].generation == 0
                            && self.meta@[i].location.is_invalid(),
                decreases extra - k,
            {
                self.meta.push(EntityMeta::empty());
                k += 1;
            }
            proof {
                assert forall|i: int|
                    #![trigger self.meta@[i]]
                    old(self).meta@.len() <= i < self.meta@.len() implies self.meta@[i].generation
                    == 0 && self.meta@[i].location.is_invalid() by {
                    assert(m0.len() <= i);
                }
            }
            self.len = self.len + extra as u32;
            keep = 0;
        }
        let flushed_count: usize = self.pending.len() - keep;
        self.len = self.len + flushed_count as u32;
        let ghost pend0 = self.pending@;
        let ghost m1 = self.meta@;
        proof {
            assert(pend0.take(pend0.len() as int) =~= pend0);
        }
        while self.pending.len() > keep
            invariant
                keep <= self.pending@.len() <= pend0.len(),
                self.pending@ == pend0.take(self.pending@.len() as int),
                forall|i: int| 0 <= i < pend0.len() ==> (#[trigger] pend0[i] as int) < self.meta@.len(),
                self.meta@.len() == m1.len(),
                old(self).meta@.len() <= m1.len(),
                self.len == old(self).len + flushed_count + (m1.len() - old(self).meta@.len()),
                forall|i: int| 0 <= i < m1.len() ==> #[trigger] self.meta@[i].generation == m1[i].generation,
                forall|i: int|
                    #![trigger m1[i]]
                    old(self).meta@.len() <= i < m1.len() ==> m1[i].generation == 0
                        && m1[i].location.is_invalid(),
                forall|i: int|
                    #![trigger self.meta@[i]]
                    old(self).meta@.len() <= i < m1.len() ==> self.meta@[i].location.is_invalid(),
                forall|i: int| 0 <= i < old(self).meta@.len() ==> #[trigger] m1[i].generation == old(self).meta@[i].generation,
            decreases self.pending@.len(),
        {
            let idx = self.pending.pop().unwrap();
            proof {
                assert(pend0[self.pending@.len() as int] == idx);
            }
            let m = self.meta[idx as usize];
            self.meta.set(idx as usize, EntityMeta { generation: m.generation, location: EntityLocation::invalid() });
            proof {
                assert(self.pending@ =~= pend0.take(self.pending@.len() as int));
            }
        }
        self.free_cursor = self.pending.len() as i64;
        proof {
            assert forall|i: int| 0 <= i < self.pending@.len() implies (#[trigger] self.pending@[i] as int)
                < self.meta@.len() by {
                assert(self.pending@[i] == pend0[i]);
            }
        }
    }

    /// The position of slot `index` in the free list.
    fn pending_position(&self, index: u32) -> (r: Option<usize>)
        ensures
            match r {
                Some(p) => p < self.pending_view().len() && self.pending_view()[p as int] == index,
                None => !self.pending_view().contains(index),
            },
    {
        let mut k: usize = 0;
        while k < self.pending.len()
            invariant
                k <= self.pending@.len(),
                forall|i: int| 0 <= i < k ==> #[trigger] self.pending@[i] != index,
            decreases self.pending@.len() - k,
        {
            if self.pending[k] == index {
                return Some(k);
            }
            k += 1;
        }
        None
    }

    /// Makes slot `index` usable: grows `meta` up to it, putting the skipped slots on the
    /// free list, or takes it off the free list. Returns whether it was free or new.
    fn claim_slot(&mut self, index: u32) -> (r: bool)
        requires
            old(self).wf(),
            old(self).flushed(),
            old(self).pending_view().len() + index <= u32::MAX,
            (index as int) < u32::MAX,
            old(self).len_spec() < u32::MAX,
        ensures
            final(self).wf(),
            final(self).flushed(),
            (index as int) < final(self).meta_view().len(),
            final(self).meta_view().len() >= old(self).meta_view().len(),
            r == ((index as int) >= old(self).meta_view().len() || old(self).pending_view().contains(index)),
            r ==> final(self).len_spec() == old(self).len_spec() + 1,
            !r ==> *final(self) == *old(self),
            (index as int) >= old(self).meta_view().len() ==> final(self).meta_view().len() == index + 1
                && final(self).meta_view()[index as int] == fresh_meta(),
            forall|i: int|
                0 <= i < old(self).meta_view().len() ==> #[trigger] final(self).meta_view()[i] == old(self).meta_view()[i],
    {
        if index as usize >= self.meta.len() {
            let start = self.meta.len();
            let mut k: usize = start;
            while k < index as usize
                invariant
                    start == old(self).meta@.len(),
                    start <= k <= index,
                    self.meta@ == old(self).meta@,
                    self.pending@.len() == old(self).pending@.len() + (k - start),
                    old(self).pending@.len() + index <= u32::MAX,
                    forall|i: int| 0 <= i < old(self).pending@.len() ==> #[trigger] self.pending@[i] == old(self).pending@[i],
                    forall|i: int|
                        old(self).pending@.len() <= i < self.pending@.len() ==> start <= #[trigger] self.pending@[i] < k,
                    self.len == old(self).len,
                    self.pending@.no_duplicates(),
                    old(self).wf(),
                decreases index - k,
            {
                let ghost pb = self.pending@;
                self.pending.push(k as u32);
                proof {
                    assert forall|a: int, b: int|
                        0 <= a < self.pending@.len() && 0 <= b < self.pending@.len() && a != b implies self.pending@[a]
                        != self.pending@[b] by {
                        let n = pb.len() as int;
                        if a < n && b < n {
                            assert(self.pending@[a] == pb[a] && self.pending@[b] == pb[b]);
                        } else if a < n {
                            assert(self.pending@[a] == pb[a]);
                            if a < old(self).pending@.len() {
                                assert(old(self).pending_view()[a] == pb[a]);
                            }
                        } else if b < n {
                            assert(self.pending@[b] == pb[b]);
                            if b < old(self).pending@.len() {
                                assert(old(self).pending_view()[b] == pb[b]);
                            }
                        }
                    }
                }
                k += 1;
            }
            let mut m: usize = self.meta.len();
            while m <= index as usize
                invariant
                    start == old(self).meta@.len(),
                    start <= m <= index + 1,
                    self.meta@.len() == m,
                    forall|i: int| 0 <= i < start ==> #[trigger] self.meta@[i] == old(self).meta@[i],
                    forall|i: int| start <= i < m ==> #[trigger] self.meta@[i] == fresh_meta(),
                    (index as int) < u32::MAX,
                    self.len == old(self).len,
                    self.pending@.len() == old(self).pending@.len() + (index - start),
                    forall|i: int| 0 <= i < old(self).pending@.len() ==> #[trigger] self.pending@[i] == old(self).pending@[i],
                    forall|i: int|
                        old(self).pending@.len() <= i < self.pending@.len() ==> start <= #[trigger] self.pending@[i] < index,
                    old(self).pending@.len() + index <= u32::MAX,
                    self.pending@.no_duplicates(),
                decreases index + 1 - m,
            {
                let e = EntityMeta::empty();
                proof {
                    assert(e == fresh_meta());
                }
                self.meta.push(e);
                m += 1;
            }
            self.free_cursor = self.pending.len() as i64;
            self.len = self.len + 1;
            proof {
                assert forall|i: int| 0 <= i < self.pending@.len() implies (#[trigger] self.pending@[i] as int)
                    < self.meta@.len() by {
                    if i < old(self).pending@.len() {
                        assert(self.pending@[i] == old(self).pending@[i]);
                    }
                }
            }
            true
        } else {
            match self.pending_position(index) {
                Some(p) => {
                    let ghost pb = self.pending@;
                    let _ = self.pending.swap_remove(p);
                    proof {
                        let last = pb.len() - 1;
                        assert forall|a: int, b: int|
                            0 <= a < self.pending@.len() && 0 <= b < self.pending@.len() && a != b implies self.pending@[a]
                            != self.pending@[b] by {
                            let ia = if a == p { last } else { a };
                            let ib = if b == p { last } else { b };
                            assert(self.pending@[a] == pb[ia]);
                            assert(self.pending@[b] == pb[ib]);
                        }
                    }
                    self.free_cursor = self.pending.len() as i64;
                    self.len = self.len + 1;
                    proof {
                        assert forall|i: int| 0 <= i < self.pending@.len() implies (#[trigger] self.pending@[i] as int)
                            < self.meta@.len() by {
                            if i == p {
                                assert(self.pending@[i] == old(self).pending@[old(self).pending@.len() - 1]);
                            } else {
                                assert(self.pending@[i] == old(self).pending@[i]);
                            }
                        }
                    }
                    true
                },
                None => false,
            }
        }
    }

    /// Allocates the given id, overwriting its slot's generation. Returns the location of
    /// the entity that used the slot, if one did; that location must be written at once.
    pub fn alloc_at(&mut self, entity: Entity) -> (r: Option<EntityLocation>)
        requires
            old(self).wf(),
            old(self).flushed(),
            old(self).pending_view().len() + entity.index <= u32::MAX,
            (entity.index as int) < u32::MAX,
            old(self).len_spec() < u32::MAX,
        ensures
            final(self).wf(),
            final(self).flushed(),
            ({
                let i = entity.index as int;
                let claimed = i >= old(self).meta_view().len() || old(self).pending_view().contains(entity.index);
                &&& i < final(self).meta_view().len()
                &&& final(self).meta_view()[i].generation == entity.generation
                &&& claimed ==> r.is_none() && final(self).len_spec() == old(self).len_spec() + 1
                &&& !claimed ==> r == Some(old(self).meta_view()[i].location) && final(self).meta_view()[i].location.is_invalid()
                    && final(self).len_spec() == old(self).len_spec()
                    && final(self).pending_view() == old(self).pending_view()
                &&& forall|j: int|
                    0 <= j < old(self).meta_view().len() && j != i ==> #[trigger] final(self).meta_view()[j]
                        == old(self).meta_view()[j]
            }),
    {
        let ghost old_self = *self;
        let claimed = self.claim_slot(entity.index);
        let ghost mid = *self;
        let i = entity.index as usize;
        let m = self.meta[i];
        let (found, keep) = if claimed {
            (None, m.location)
        } else {
            (Some(m.location), EntityLocation::invalid())
        };
        self.meta.set(i, EntityMeta { generation: entity.generation, location: keep });
        proof {
            assert forall|j: int| 0 <= j < old_self.meta@.len() && j != i implies #[trigger] self.meta@[j]
                == old_self.meta@[j] by {
                assert(self.meta@[j] == mid.meta@[j]);
            }
        }
        found
    }

    /// Allocates the given id unless a live entity of another generation holds its slot.
    pub fn alloc_at_without_replacement(&mut self, entity: Entity) -> (r: AllocAtWithoutReplacement)
        requires
            old(self).wf(),
            old(self).flushed(),
            old(self).pending_view().len() + entity.index <= u32::MAX,
            (entity.index as int) < u32::MAX,
            old(self).len_spec() < u32::MAX,
        ensures
            final(self).wf(),
            final(self).flushed(),
            ({
                let i = entity.index as int;
                let claimed = i >= old(self).meta_view().len() || old(self).pending_view().contains(entity.index);
                &&& claimed ==> r == AllocAtWithoutReplacement::DidNotExist && final(self).len_spec()
                    == old(self).len_spec() + 1 && final(self).meta_view()[i].generation == entity.generation
                &&& !claimed && old(self).meta_view()[i].location.archetype_id.0 == INVALID_INDEX ==> r
                    == AllocAtWithoutReplacement::DidNotExist && final(self).meta_view() == old(self).meta_view().update(
                    i,
                    EntityMeta { generation: entity.generation, location: old(self).meta_view()[i].location },
                )
                &&& !claimed && old(self).meta_view()[i].location.archetype_id.0 != INVALID_INDEX
                    && old(self).meta_view()[i].generation == entity.generation ==> r
                    == AllocAtWithoutReplacement::Exists(old(self).meta_view()[i].location) && *final(self) == *old(self)
                &&& !claimed && old(self).meta_view()[i].location.archetype_id.0 != INVALID_INDEX
                    && old(self).meta_view()[i].generation != entity.generation ==> r
                    == AllocAtWithoutReplacement::ExistsWithWrongGeneration && *final(self) == *old(self)
            }),
    {
        let ghost old_self = *self;
        let claimed = self.claim_slot(entity.index);
        let i = entity.index as usize;
        let m = self.meta[i];
        let r = if claimed {
            AllocAtWithoutReplacement::DidNotExist
        } else if m.location.archetype_id.0 == INVALID_INDEX {
            AllocAtWithoutReplacement::DidNotExist
        } else if m.generation == entity.generation {
            return AllocAtWithoutReplacement::Exists(m.location);
        } else {
            return AllocAtWithoutReplacement::ExistsWithWrongGeneration;
        };
        self.meta.set(i, EntityMeta { generation: entity.generation, location: m.location });
        proof {
            if !claimed {
                assert(self.meta@ =~= old_self.meta@.update(i as int, EntityMeta { generation: entity.generation, location: m.location }));
            }
        }
        r
    }

    /// Replaces everything with `count` reserved slots whose bytes are all set, as for a
    /// world that holds no entities yet.
    pub fn flush_and_reserve_invalid_assuming_no_entities(&mut self, count: usize)
        requires
            count <= u32::MAX,
            old(self).pending_view().len() == 0,
        ensures
            final(self).wf(),
            final(self).flushed(),
            final(self).meta_view().len() == count,
            final(self).len_spec() == count,
            forall|i: int|
                0 <= i < count ==> #[trigger] final(self).meta_view()[i].generation == u32::MAX
                    && final(self).meta_view()[i].location.is_invalid(),
    {
        self.free_cursor = 0;
        self.meta.clear();
        let mut k: usize = 0;
        while k < count
            invariant
                k <= count,
                count <= u32::MAX,
                self.meta@.len() == k,
                self.pending@ == old(self).pending@,
                self.free_cursor == 0,
                old(self).pending_view().len() == 0,
                forall|i: int|
                    #![trigger self.meta@[i]]
                    0 <= i < k ==> self.meta@[i].generation == u32::MAX && self.meta@[i].location.is_invalid(),
            decreases count - k,
        {
            self.meta.push(EntityMeta { generation: u32::MAX, location: EntityLocation::invalid() });
            k += 1;
        }
        self.len = count as u32;
        proof {
            assert forall|i: int| 0 <= i < count implies #[trigger] self.meta@[i].generation == u32::MAX
                && self.meta@[i].location.is_invalid() by {
            }
        }
    }

    /// Number of slots ever allocated, freed ones included.
    pub fn total_count(&self) -> (r: usize)
        ensures
            r == self.meta_view().len(),
    {
        self.meta.len()
    }

    /// Number of live entities.
    pub fn len(&self) -> (r: u32)
        ensures
            r == self.len_spec(),
    {
        self.len
    }

    /// Whether no entity is live.
    pub fn is_empty(&self) -> (r: bool)
        ensures
            r == (self.len_spec() == 0),
    {
        self.len == 0
    }
}

} // verus!
