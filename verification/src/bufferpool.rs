//! Physical pages, buffer-pool frames, and the buffer pool itself.
//!
//! A page is a fixed slab of 512 cells of 64-bit values; the final cell is
//! the write cursor. The buffer pool caches pages in a bounded set of
//! frames above a page store, tracks dirty frames, and evicts with a
//! randomly chosen victim when every frame is occupied.

use vstd::prelude::*;

use crate::constants::{BP_NUM_FRAMES, CELLS_PER_PAGE};
use crate::errors::DatabaseError;

verus! {

/// Contains a single field. Because all fields are 64-bit integers, we use
/// `i64`. If a field has been written, it contains `Some(i64)`; otherwise
/// it holds `None`, the null sentinel.
#[derive(Copy, Clone, Debug)]
pub struct Cell(pub Option<i64>);

/// Represents a physical page offset.
pub type Offset = usize;

impl Cell {
    /// Create a new cell.
    pub fn new(value: Option<i64>) -> (r: Self)
        ensures
            r.0 == value,
    {
        Cell(value)
    }

    /// Create a new empty cell.
    pub fn empty() -> (r: Self)
        ensures
            r.0 is None,
    {
        Cell(None)
    }

    /// Return the value in this cell.
    pub fn value(&self) -> (r: Option<i64>)
        ensures
            r == self.0,
    {
        self.0
    }
}

/// Contains the physical "address" of a page in the page store.
#[derive(Debug, Clone, Copy, PartialEq, Eq, Structural, Hash)]
pub struct PhysicalPageID {
    /// Identifier of the table that this page belongs to.
    pub table_identifier: usize,

    /// Index of the column that this page belongs to.
    pub column_index: usize,

    /// The index of this page in its column file.
    pub page_index: usize,
}

impl PhysicalPageID {
    /// Create a new physical page ID given the table identifier, column
    /// index, and page index.
    pub fn new(table_identifier: usize, column_index: usize, page_index: usize) -> (r: Self)
        ensures
            r == (PhysicalPageID { table_identifier, column_index, page_index }),
    {
        PhysicalPageID { table_identifier, column_index, page_index }
    }
}

/// Represents a physical page. Every physical page has 512 cells of eight
/// bytes each, so each has a size of 4096 bytes on disk.
#[derive(Debug)]
pub struct Page {
    /// Cells of this page; the last slot is reserved for the cell count.
    cells: Vec<Cell>,
}

impl Clone for Page {
    /// Cloning a page copies every cell.
    fn clone(&self) -> (r: Self)
        ensures
            r@ == self@,
    {
        let mut cells: Vec<Cell> = Vec::new();
        let mut i: usize = 0;
        while i < self.cells.len()
            invariant
                i == cells@.len() <= self.cells@.len(),
                forall|j: int| 0 <= j < i ==> cells@[j] == self.cells@[j],
            decreases self.cells@.len() - i,
        {
            cells.push(self.cells[i]);
            i = i + 1;
        }
        let r = Page { cells };
        assert(r@ =~= self@);
        r
    }
}

impl View for Page {
    type V = Seq<Option<i64>>;

    closed spec fn view(&self) -> Seq<Option<i64>> {
        self.cells@.map(|_i: int, c: Cell| c.0)
    }
}

impl Page {
    /// A page is well formed when it has exactly `CELLS_PER_PAGE` cells and
    /// its final cell holds a cursor no larger than the usable capacity.
    pub open spec fn wf(self) -> bool {
        &&& self@.len() == CELLS_PER_PAGE
        &&& self@[CELLS_PER_PAGE - 1] is Some
        &&& 0 <= self@[CELLS_PER_PAGE - 1].unwrap() <= CELLS_PER_PAGE - 1
    }

    /// The index of the next unused cell, stored in the final cell.
    pub open spec fn cursor(self) -> int {
        self@[CELLS_PER_PAGE - 1].unwrap() as int
    }

    /// Create a new empty page: all cells unwritten, cursor zero.
    pub fn new() -> (r: Self)
        ensures
            r.wf(),
            r.cursor() == 0,
            forall|i: int| 0 <= i < CELLS_PER_PAGE - 1 ==> r@[i] is None,
    {
        let mut cells: Vec<Cell> = Vec::new();
        let mut i: usize = 0;
        while i < CELLS_PER_PAGE - 1
            invariant
                i == cells@.len() <= CELLS_PER_PAGE - 1,
                forall|j: int| 0 <= j < i ==> cells@[j].0 is None,
            decreases CELLS_PER_PAGE - 1 - i,
        {
            cells.push(Cell::empty());
            i = i + 1;
        }
        cells.push(Cell::new(Some(0)));
        Page { cells }
    }

    /// Returns all the cells stored in this page.
    pub fn get_cells(&self) -> (r: &Vec<Cell>)
        ensures
            r@.map(|_i: int, c: Cell| c.0) == self@,
    {
        &self.cells
    }

    /// Create a page from a vector of cells carrying a valid cursor cell.
    pub fn from_data(cells: Vec<Cell>) -> (r: Self)
        requires
            cells@.len() == CELLS_PER_PAGE,
            cells@[CELLS_PER_PAGE - 1].0 is Some,
            0 <= cells@[CELLS_PER_PAGE - 1].0.unwrap() <= CELLS_PER_PAGE - 1,
        ensures
            r.wf(),
            r@ == cells@.map(|_i: int, c: Cell| c.0),
    {
        Page { cells }
    }

    /// Write a value to this page at the given offset. Writing to the
    /// cursor cell or beyond fails; the cursor never moves.
    pub fn write(&mut self, offset: Offset, value: Option<i64>) -> (r: Result<Offset, DatabaseError>)
        requires
            old(self).wf(),
        ensures
            final(self).wf(),
            offset < CELLS_PER_PAGE - 1 ==> {
                &&& r == Ok::<Offset, DatabaseError>(offset)
                &&& final(self)@ == old(self)@.update(offset as int, value)
            },
            offset >= CELLS_PER_PAGE - 1 ==> {
                &&& r == Err::<Offset, DatabaseError>(DatabaseError::OffsetOOB)
                &&& *final(self) == *old(self)
            },
            final(self).cursor() == old(self).cursor(),
    {
        if offset >= CELLS_PER_PAGE - 1 {
            // The caller may be trying to write to the cell count cell or
            // beyond, which is not allowed.
            return Err(DatabaseError::OffsetOOB);
        }

        self.cells.set(offset, Cell::new(value));
        assert(self@ =~= old(self)@.update(offset as int, value));
        Ok(offset)
    }

    /// Get the index of the next available cell for this page.
    fn cell_count(&self) -> (r: usize)
        requires
            self.wf(),
        ensures
            r == self.cursor(),
    {
        let c = self.cells[CELLS_PER_PAGE - 1].value();
        c.unwrap() as usize
    }

    /// Increment the index of the next available cell for this page.
    fn increment_cell_count(&mut self)
        requires
            old(self).wf(),
            old(self).cursor() < CELLS_PER_PAGE - 1,
        ensures
            final(self).wf(),
            final(self)@ == old(self)@.update(
                CELLS_PER_PAGE - 1,
                Some((old(self).cursor() + 1) as i64),
            ),
            final(self).cursor() == old(self).cursor() + 1,
    {
        let previous_count = self.cell_count();
        self.cells.set(CELLS_PER_PAGE - 1, Cell::new(Some(previous_count as i64 + 1)));
        assert(self@ =~= old(self)@.update(
            CELLS_PER_PAGE - 1,
            Some((old(self).cursor() + 1) as i64),
        ));
    }

    /// The index of the next unused cell of this page, read from the
    /// final cell.
    pub fn cursor_slot(&self) -> (r: usize)
        requires
            self.wf(),
        ensures
            r == self.cursor(),
    {
        self.cell_count()
    }

    /// Write a value to the next available cell in this page, advancing
    /// the cursor. Fails when the cursor has reached the usable capacity.
    pub fn write_next(&mut self, value: Option<i64>) -> (r: Result<Offset, DatabaseError>)
        requires
            old(self).wf(),
        ensures
            final(self).wf(),
            old(self).cursor() < CELLS_PER_PAGE - 1 ==> {
                &&& r == Ok::<Offset, DatabaseError>(old(self).cursor() as Offset)
                &&& final(self)@ == old(self)@.update(old(self).cursor(), value).update(
                    CELLS_PER_PAGE - 1,
                    Some((old(self).cursor() + 1) as i64),
                )
                &&& final(self).cursor() == old(self).cursor() + 1
            },
            old(self).cursor() >= CELLS_PER_PAGE - 1 ==> {
                &&& r == Err::<Offset, DatabaseError>(DatabaseError::OffsetOOB)
                &&& *final(self) == *old(self)
            },
    {
        let count = self.cell_count();

        // First, try writing to the next available cell (which may fail
        // when the page is full).
        self.write(count, value)?;

        // Then, increment the cell count.
        self.increment_cell_count();

        // Return the cell that we wrote to.
        Ok(count)
    }

    /// Read a single cell from a physical page. Reading the cursor cell or
    /// beyond fails.
    pub fn read(&self, offset: usize) -> (r: Result<Option<i64>, DatabaseError>)
        requires
            self.wf(),
        ensures
            offset < CELLS_PER_PAGE - 1 ==> r == Ok::<Option<i64>, DatabaseError>(self@[offset as int]),
            offset >= CELLS_PER_PAGE - 1 ==> r == Err::<Option<i64>, DatabaseError>(
                DatabaseError::OffsetOOB,
            ),
    {
        if offset >= CELLS_PER_PAGE - 1 {
            // The caller may be trying to read the cell count cell or
            // beyond, which is not allowed.
            return Err(DatabaseError::OffsetOOB);
        }

        Ok(self.cells[offset].value())
    }
}

/// The view of a freshly allocated page: all cells unwritten, cursor zero.
pub open spec fn empty_page_view() -> Seq<Option<i64>> {
    Seq::new(
        CELLS_PER_PAGE as nat,
        |i: int| if i == CELLS_PER_PAGE - 1 { Some(0i64) } else { None },
    )
}

/// The result of installing `incoming` over `current` with a masked write:
/// cells holding the null sentinel and the cursor cell keep their current
/// value, every other cell takes the incoming value.
pub open spec fn masked_combine(
    incoming: Seq<Option<i64>>,
    current: Seq<Option<i64>>,
) -> Seq<Option<i64>> {
    Seq::new(
        CELLS_PER_PAGE as nat,
        |i: int| if i < CELLS_PER_PAGE - 1 && incoming[i] is Some { incoming[i] } else { current[i] },
    )
}

/// Applying a masked write twice with the same input is equivalent to
/// applying it once.
pub proof fn lemma_masked_write_idempotent(incoming: Seq<Option<i64>>, current: Seq<Option<i64>>)
    requires
        current.len() == CELLS_PER_PAGE,
    ensures
        masked_combine(incoming, masked_combine(incoming, current)) == masked_combine(
            incoming,
            current,
        ),
{
    assert(masked_combine(incoming, masked_combine(incoming, current)) =~= masked_combine(
        incoming,
        current,
    ));
}

/// Relies on rand::Rng::gen_range over rand::thread_rng: returns a
/// uniformly chosen value of the non-empty range `0..bound`, so the result
/// is always below `bound`. Nothing is assumed about which value comes
/// back.
#[verifier::external_body]
fn random_frame_index(bound: usize) -> (r: usize)
    requires
        bound >= 1,
    ensures
        r < bound,
{
    <rand::rngs::ThreadRng as rand::Rng>::gen_range(&mut rand::thread_rng(), 0..bound)
}

/// Represents a single buffer pool frame.
#[derive(Debug)]
pub struct Frame {
    /// Page data stored inside this frame.
    pub page: Option<Page>,

    /// If this field is true, the page must be written to the page store
    /// before eviction.
    pub dirty: bool,

    /// If this field is true, this frame should actually be considered
    /// empty.
    pub empty: bool,

    /// The physical page ID of the page currently held by this frame.
    pub id: Option<PhysicalPageID>,
}

impl Frame {
    /// Create a new empty frame.
    pub fn new() -> (r: Self)
        ensures
            r.empty,
            r.id is None,
            r.page is None,
            !r.dirty,
    {
        Frame { page: None, dirty: false, empty: true, id: None }
    }
}

/// The buffer pool manager. One instance of the buffer pool manager is
/// shared by all tables. It owns the in-memory image of every column file
/// (the page store, persisted by the embedder on close) and a fixed set of
/// frames caching pages above that store.
#[derive(Debug)]
pub struct BufferPool {
    /// Contains all the frames for the buffer pool.
    pub frames: Vec<Frame>,

    /// The page store: for each registered table, for each of its columns,
    /// the ordered pages of that column file.
    pub store: Vec<Vec<Vec<Page>>>,

    /// Names of all the tables that have been registered; the identifier
    /// of a table is its position here.
    pub table_names: Vec<String>,
}

impl BufferPool {
    /// A page id is allocated when it lies within the page store.
    pub open spec fn is_allocated(self, id: PhysicalPageID) -> bool {
        &&& id.table_identifier < self.store@.len()
        &&& id.column_index < self.store@[id.table_identifier as int]@.len()
        &&& id.page_index < self.store@[id.table_identifier as int]@[id.column_index as int]@.len()
    }

    /// The page stored for `id`, disregarding any cached frame.
    pub open spec fn store_page(self, id: PhysicalPageID) -> Page {
        self.store@[id.table_identifier as int]@[id.column_index as int]@[id.page_index as int]
    }

    /// Frame `i` currently holds page `id`.
    pub open spec fn frame_holds(self, i: int, id: PhysicalPageID) -> bool {
        &&& 0 <= i < self.frames@.len()
        &&& !self.frames@[i].empty
        &&& self.frames@[i].id == Some(id)
    }

    /// Page `id` is cached in some frame.
    pub open spec fn cached(self, id: PhysicalPageID) -> bool {
        exists|i: int| self.frame_holds(i, id)
    }

    /// The index of the frame caching page `id`.
    pub open spec fn cache_index(self, id: PhysicalPageID) -> int {
        choose|i: int| self.frame_holds(i, id)
    }

    /// The current content of page `id`: the cached copy when one exists,
    /// the stored page otherwise.
    pub open spec fn page_at(self, id: PhysicalPageID) -> Seq<Option<i64>> {
        if self.cached(id) {
            self.frames@[self.cache_index(id)].page.unwrap()@
        } else {
            self.store_page(id)@
        }
    }

    /// Everything the pool promises about one frame.
    pub open spec fn frame_ok(self, i: int) -> bool {
        let f = self.frames@[i];
        &&& (f.empty <==> f.id is None)
        &&& (f.empty <==> f.page is None)
        &&& (f.empty ==> !f.dirty)
        &&& (!f.empty ==> {
            &&& self.is_allocated(f.id.unwrap())
            &&& f.page.unwrap().wf()
            &&& (!f.dirty ==> f.page.unwrap()@ == self.store_page(f.id.unwrap())@)
        })
    }

    /// Well-formedness of the pool: the frame table has its fixed size,
    /// every frame is consistent with the store, no two frames hold the
    /// same page, every stored page is well formed, and table identifiers
    /// line up with the store.
    pub open spec fn wf(self) -> bool {
        &&& self.frames@.len() == BP_NUM_FRAMES
        &&& forall|i: int| 0 <= i < self.frames@.len() ==> #[trigger] self.frame_ok(i)
        &&& forall|i: int, j: int|
            #![trigger self.frames@[i].id, self.frames@[j].id]
            0 <= i < self.frames@.len() && 0 <= j < self.frames@.len() && i != j
                && !self.frames@[i].empty && !self.frames@[j].empty ==> self.frames@[i].id
                != self.frames@[j].id
        &&& forall|id: PhysicalPageID| self.is_allocated(id) ==> (#[trigger] self.store_page(
            id,
        )).wf()
        &&& self.table_names@.len() == self.store@.len()
    }

    /// The names of the registered tables, as sequences of characters.
    pub open spec fn names(self) -> Seq<Seq<char>> {
        self.table_names@.map(|_i: int, s: String| s@)
    }

    /// The shape of the page store is unchanged: the same tables, the
    /// same column files, the same file lengths.
    pub open spec fn same_files(pre: BufferPool, post: BufferPool) -> bool {
        &&& post.store@.len() == pre.store@.len()
        &&& forall|t: int| 0 <= t < pre.store@.len() ==> #[trigger] post.store@[t]@.len()
            == pre.store@[t]@.len()
        &&& forall|t: int, c: int|
            0 <= t < pre.store@.len() && 0 <= c < pre.store@[t]@.len()
                ==> #[trigger] post.store@[t]@[c]@.len() == pre.store@[t]@[c]@.len()
    }

    /// The store and name registry of `post` agree with `pre` everywhere:
    /// the same tables, the same allocated pages, the same page contents.
    pub open spec fn preserves(pre: BufferPool, post: BufferPool) -> bool {
        &&& post.names() == pre.names()
        &&& forall|x: PhysicalPageID| pre.is_allocated(x) <==> post.is_allocated(x)
        &&& forall|x: PhysicalPageID| pre.is_allocated(x) ==> #[trigger] post.page_at(x)
            == pre.page_at(x)
    }

    /// As `preserves`, except that page `id` now holds `v`.
    pub open spec fn updates(pre: BufferPool, post: BufferPool, id: PhysicalPageID, v: Seq<
        Option<i64>,
    >) -> bool {
        &&& post.names() == pre.names()
        &&& forall|x: PhysicalPageID| pre.is_allocated(x) <==> post.is_allocated(x)
        &&& post.page_at(id) == v
        &&& forall|x: PhysicalPageID| pre.is_allocated(x) && x != id ==> #[trigger] post.page_at(x)
            == pre.page_at(x)
    }

    /// When frame `i` holds `id`, the current content of `id` is that
    /// frame's page.
    pub proof fn lemma_page_at_cached(self, i: int, id: PhysicalPageID)
        requires
            self.wf(),
            self.frame_holds(i, id),
        ensures
            self.cached(id),
            self.cache_index(id) == i,
            self.page_at(id) == self.frames@[i].page.unwrap()@,
    {
        assert(self.cached(id));
        let j = self.cache_index(id);
        assert(self.frame_holds(j, id));
        if i != j {
            assert(self.frames@[i].id == self.frames@[j].id);
            assert(false);
        }
    }

    /// Create the buffer pool manager with every frame empty and no table
    /// registered.
    pub fn new() -> (r: Self)
        ensures
            r.wf(),
            r.names() == Seq::<Seq<char>>::empty(),
            r.store@.len() == 0,
            forall|x: PhysicalPageID| !r.is_allocated(x),
    {
        let mut frames: Vec<Frame> = Vec::new();
        let mut i: usize = 0;
        while i < BP_NUM_FRAMES
            invariant
                i == frames@.len() <= BP_NUM_FRAMES,
                forall|j: int| 0 <= j < i ==> {
                    &&& (#[trigger] frames@[j]).empty
                    &&& frames@[j].id is None
                    &&& frames@[j].page is None
                    &&& !frames@[j].dirty
                },
            decreases BP_NUM_FRAMES - i,
        {
            frames.push(Frame::new());
            i = i + 1;
        }
        let r = BufferPool { frames, store: Vec::new(), table_names: Vec::new() };
        assert(r.names() =~= Seq::<Seq<char>>::empty());
        r
    }

    /// When the frames of two pool states agree on emptiness, held ids and
    /// held pages, the cached pages and their contents agree too.
    pub proof fn lemma_cached_stable(pre: BufferPool, post: BufferPool)
        requires
            pre.wf(),
            post.frames@.len() == pre.frames@.len(),
            forall|j: int| 0 <= j < pre.frames@.len() ==> {
                &&& (#[trigger] post.frames@[j]).empty == pre.frames@[j].empty
                &&& post.frames@[j].id == pre.frames@[j].id
                &&& post.frames@[j].page == pre.frames@[j].page
            },
        ensures
            forall|x: PhysicalPageID| #[trigger] post.cached(x) <==> pre.cached(x),
            forall|x: PhysicalPageID| pre.cached(x) ==> #[trigger] post.page_at(x) == {
                let j = pre.cache_index(x);
                pre.frames@[j].page.unwrap()@
            },
    {
        assert forall|x: PhysicalPageID| #[trigger] post.cached(x) <==> pre.cached(x) by {
            if post.cached(x) {
                let j = post.cache_index(x);
                assert(post.frame_holds(j, x));
                assert(pre.frame_holds(j, x));
            }
            if pre.cached(x) {
                let j = pre.cache_index(x);
                assert(pre.frame_holds(j, x));
                assert(post.frame_holds(j, x));
            }
        }
        assert forall|x: PhysicalPageID| pre.cached(x) implies #[trigger] post.page_at(x) == {
            let j = pre.cache_index(x);
            pre.frames@[j].page.unwrap()@
        } by {
            let j = pre.cache_index(x);
            assert(pre.frame_holds(j, x));
            assert(post.cached(x));
            let k = post.cache_index(x);
            assert(post.frame_holds(k, x));
            assert(pre.frame_holds(k, x));
            if j != k {
                assert(pre.frames@[j].id == pre.frames@[k].id);
                assert(false);
            }
        }
    }

    /// When the page store is unchanged, every stored page stays well
    /// formed.
    pub proof fn lemma_store_wf_stable(pre: BufferPool, post: BufferPool)
        requires
            pre.wf(),
            post.store == pre.store,
        ensures
            forall|x: PhysicalPageID| post.is_allocated(x) ==> (#[trigger] post.store_page(
                x,
            )).wf(),
    {
        assert forall|x: PhysicalPageID| post.is_allocated(x) implies (#[trigger] post.store_page(
            x,
        )).wf() by {
            assert(pre.store_page(x).wf());
        }
    }

    /// Write the page held by frame `i` back to the page store and clear
    /// the frame's dirty flag.
    fn flush_frame(&mut self, i: usize)
        requires
            old(self).wf(),
            i < old(self).frames@.len(),
            !old(self).frames@[i as int].empty,
        ensures
            final(self).wf(),
            BufferPool::preserves(*old(self), *final(self)),
            BufferPool::same_files(*old(self), *final(self)),
            final(self).frames@.len() == old(self).frames@.len(),
            forall|j: int| 0 <= j < old(self).frames@.len() && j != i ==> final(self).frames@[j]
                == old(self).frames@[j],
            final(self).frames@[i as int].empty == old(self).frames@[i as int].empty,
            final(self).frames@[i as int].id == old(self).frames@[i as int].id,
            final(self).frames@[i as int].page == old(self).frames@[i as int].page,
            !final(self).frames@[i as int].dirty,
            final(self).store_page(old(self).frames@[i as int].id.unwrap())@ == old(self).frames@[i as int].page.unwrap()@,
    {
        let ghost pre = *self;
        proof {
            assert(pre.frame_ok(i as int));
        }
        let id = self.frames[i].id.unwrap();
        let taken = self.frames[i].page.take();
        let pg_store = taken.as_ref().unwrap().clone();
        let ghost held = pre.frames@[i as int].page.unwrap()@;
        self.store[id.table_identifier][id.column_index].set(id.page_index, pg_store);
        let f = Frame { page: taken, dirty: false, empty: false, id: Some(id) };
        self.frames.set(i, f);
        proof {
            let post = *self;
            // The store changed at `id` alone.
            assert forall|x: PhysicalPageID| pre.is_allocated(x) implies post.is_allocated(x)
                && (x != id ==> post.store_page(x) == pre.store_page(x)) by {
                assert(post.store@ =~= pre.store@.update(
                    id.table_identifier as int,
                    post.store@[id.table_identifier as int],
                ));
            }
            assert forall|x: PhysicalPageID| post.is_allocated(x) implies pre.is_allocated(x) by {}
            assert(post.store_page(id)@ == held);
            BufferPool::lemma_cached_stable(pre, post);
            // Every frame is still consistent.
            assert forall|j: int| 0 <= j < post.frames@.len() implies #[trigger] post.frame_ok(
                j,
            ) by {
                assert(pre.frame_ok(j));
                if j != i {
                    let fj = post.frames@[j];
                    if !fj.empty && fj.id.unwrap() == id {
                        assert(pre.frames@[j].id == pre.frames@[i as int].id);
                        assert(false);
                    }
                }
            }
            assert(post.wf());
            // Contents are preserved everywhere.
            assert forall|x: PhysicalPageID| pre.is_allocated(x) implies #[trigger] post.page_at(x)
                == pre.page_at(x) by {
                if pre.cached(x) {
                    let j = pre.cache_index(x);
                    pre.lemma_page_at_cached(j, x);
                } else {
                    assert(!post.cached(x));
                    if x != id {
                        assert(post.store_page(x) == pre.store_page(x));
                    } else {
                        pre.lemma_page_at_cached(i as int, id);
                        assert(false);
                    }
                }
            }
            assert(post.names() =~= pre.names());
        }
    }

    /// Empty frame `i`, writing its page back to the store first when the
    /// frame is dirty. The content of every page is preserved.
    fn evict_frame(&mut self, i: usize)
        requires
            old(self).wf(),
            i < old(self).frames@.len(),
        ensures
            final(self).wf(),
            BufferPool::preserves(*old(self), *final(self)),
            BufferPool::same_files(*old(self), *final(self)),
            final(self).frames@.len() == old(self).frames@.len(),
            forall|j: int| 0 <= j < old(self).frames@.len() && j != i ==> final(self).frames@[j]
                == old(self).frames@[j],
            final(self).frames@[i as int].empty,
            forall|x: PhysicalPageID| !old(self).cached(x) ==> !final(self).cached(x),
    {
        let ghost pre = *self;
        if self.frames[i].empty {
            return ;
        }
        if self.frames[i].dirty {
            self.flush_frame(i);
        }
        let ghost mid = *self;
        let ghost id = mid.frames@[i as int].id.unwrap();
        proof {
            assert(mid.frame_ok(i as int));
        }
        self.frames.set(i, Frame::new());
        proof {
            let post = *self;
            assert forall|j: int| 0 <= j < post.frames@.len() implies #[trigger] post.frame_ok(
                j,
            ) by {
                assert(mid.frame_ok(j));
            }
            BufferPool::lemma_store_wf_stable(mid, post);
            assert(post.wf());
            assert forall|x: PhysicalPageID| !pre.cached(x) implies !post.cached(x) by {
                if post.cached(x) {
                    let k = post.cache_index(x);
                    assert(post.frame_holds(k, x));
                    assert(k != i);
                    assert(mid.frame_holds(k, x));
                    assert(pre.frame_holds(k, x));
                }
            }
            assert forall|x: PhysicalPageID| mid.is_allocated(x) implies #[trigger] post.page_at(x)
                == mid.page_at(x) by {
                if mid.cached(x) {
                    let j = mid.cache_index(x);
                    mid.lemma_page_at_cached(j, x);
                    if j == i {
                        // The evicted page was clean, so the store already
                        // holds its content.
                        assert(x == id);
                        assert(!mid.frames@[i as int].dirty);
                        assert(mid.store_page(x)@ == mid.page_at(x));
                        if post.cached(x) {
                            let k = post.cache_index(x);
                            assert(post.frame_holds(k, x));
                            assert(k != i);
                            assert(mid.frame_holds(k, x));
                            assert(false);
                        }
                    } else {
                        assert(post.frame_holds(j, x));
                        post.lemma_page_at_cached(j, x);
                    }
                } else {
                    assert(!post.cached(x)) by {
                        if post.cached(x) {
                            let k = post.cache_index(x);
                            assert(post.frame_holds(k, x));
                            assert(k != i);
                            assert(mid.frame_holds(k, x));
                        }
                    }
                }
            }
            assert(post.names() =~= mid.names());
        }
    }

    /// Load the stored page `id` into the empty frame `i`.
    fn install_frame(&mut self, i: usize, id: PhysicalPageID)
        requires
            old(self).wf(),
            i < old(self).frames@.len(),
            old(self).frames@[i as int].empty,
            old(self).is_allocated(id),
            !old(self).cached(id),
        ensures
            final(self).wf(),
            BufferPool::preserves(*old(self), *final(self)),
            BufferPool::same_files(*old(self), *final(self)),
            final(self).frame_holds(i as int, id),
            final(self).frames@[i as int].page.unwrap()@ == old(self).page_at(id),
    {
        let ghost pre = *self;
        let pg = self.store[id.table_identifier][id.column_index][id.page_index].clone();
        self.frames.set(i, Frame { page: Some(pg), dirty: false, empty: false, id: Some(id) });
        proof {
            let post = *self;
            assert(pre.page_at(id) == pre.store_page(id)@);
            assert forall|j: int| 0 <= j < post.frames@.len() implies #[trigger] post.frame_ok(
                j,
            ) by {
                assert(pre.frame_ok(j));
            }
            assert forall|j: int, k: int|
                0 <= j < post.frames@.len() && 0 <= k < post.frames@.len() && j != k
                    && !post.frames@[j].empty && !post.frames@[k].empty implies post.frames@[j].id
                != post.frames@[k].id by {
                if j == i || k == i {
                    let o = if j == i { k } else { j };
                    if post.frames@[o].id == Some(id) {
                        assert(pre.frame_holds(o, id));
                        assert(false);
                    }
                }
            }
            BufferPool::lemma_store_wf_stable(pre, post);
            assert(post.wf());
            assert forall|x: PhysicalPageID| pre.is_allocated(x) implies #[trigger] post.page_at(x)
                == pre.page_at(x) by {
                if pre.cached(x) {
                    let j = pre.cache_index(x);
                    pre.lemma_page_at_cached(j, x);
                    assert(post.frame_holds(j, x));
                    post.lemma_page_at_cached(j, x);
                } else if x == id {
                    post.lemma_page_at_cached(i as int, x);
                } else {
                    assert(!post.cached(x)) by {
                        if post.cached(x) {
                            let k = post.cache_index(x);
                            assert(post.frame_holds(k, x));
                            if k == i {
                                assert(x == id);
                            } else {
                                assert(pre.frame_holds(k, x));
                            }
                        }
                    }
                }
            }
            assert(post.names() =~= pre.names());
            post.lemma_page_at_cached(i as int, id);
        }
    }

    /// Get the index of the frame holding page `id`, or `None` if the
    /// buffer pool isn't holding the requested page.
    pub fn get_frame_by_ppid(&self, global_page_index: PhysicalPageID) -> (r: Option<usize>)
        requires
            self.wf(),
        ensures
            match r {
                Some(i) => self.frame_holds(i as int, global_page_index),
                None => !self.cached(global_page_index),
            },
    {
        let mut i: usize = 0;
        while i < self.frames.len()
            invariant
                self.wf(),
                i <= self.frames@.len(),
                forall|j: int| 0 <= j < i ==> !self.frame_holds(j, global_page_index),
            decreases self.frames@.len() - i,
        {
            if !self.frames[i].empty {
                match self.frames[i].id {
                    Some(fid) => {
                        if fid == global_page_index {
                            return Some(i);
                        }
                    },
                    None => {},
                }
            }
            i = i + 1;
        }
        None
    }

    /// Bring page `id` into the buffer pool from the store and get the
    /// index of the frame that's chosen to hold it. Prefers an empty
    /// frame; when none exists, a randomly chosen victim is evicted.
    fn bring_page_into_pool(&mut self, global_page_index: PhysicalPageID) -> (r: usize)
        requires
            old(self).wf(),
            old(self).is_allocated(global_page_index),
            !old(self).cached(global_page_index),
        ensures
            final(self).wf(),
            BufferPool::preserves(*old(self), *final(self)),
            BufferPool::same_files(*old(self), *final(self)),
            final(self).frame_holds(r as int, global_page_index),
            final(self).frames@[r as int].page.unwrap()@ == old(self).page_at(global_page_index),
    {
        // First, check if an empty frame exists.
        let mut victim: usize = 0;
        let mut found_empty = false;
        let mut i: usize = 0;
        while i < self.frames.len()
            invariant
                self.wf(),
                i <= self.frames@.len(),
                found_empty ==> victim < self.frames@.len() && self.frames@[
                    victim as int
                ].empty,
            decreases self.frames@.len() - i,
        {
            if self.frames[i].empty {
                victim = i;
                found_empty = true;
                break ;
            }
            i = i + 1;
        }

        if !found_empty {
            // No empty frame: evict a randomly chosen one.
            victim = random_frame_index(BP_NUM_FRAMES);
            self.evict_frame(victim);
        }
        self.install_frame(victim, global_page_index);
        victim
    }

    /// Return a snapshot of the page with the given physical page ID,
    /// pulling it into a frame when absent.
    pub fn request_page(&mut self, id: PhysicalPageID) -> (r: Page)
        requires
            old(self).wf(),
            old(self).is_allocated(id),
        ensures
            final(self).wf(),
            BufferPool::preserves(*old(self), *final(self)),
            BufferPool::same_files(*old(self), *final(self)),
            r.wf(),
            r@ == old(self).page_at(id),
    {
        match self.get_frame_by_ppid(id) {
            Some(i) => {
                // This page is already in the buffer pool - return it.
                proof {
                    self.lemma_page_at_cached(i as int, id);
                    assert(self.frame_ok(i as int));
                }
                self.frames[i].page.as_ref().unwrap().clone()
            },
            None => {
                // This page isn't in the buffer pool yet - grab it first.
                let i = self.bring_page_into_pool(id);
                proof {
                    assert(self.frame_ok(i as int));
                }
                self.frames[i].page.as_ref().unwrap().clone()
            },
        }
    }

    /// Install `page` as the content of the page with the given physical
    /// page ID and mark its frame dirty. The page must already be
    /// allocated.
    pub fn write_page(&mut self, page: Page, id: PhysicalPageID)
        requires
            old(self).wf(),
            old(self).is_allocated(id),
            page.wf(),
        ensures
            final(self).wf(),
            BufferPool::updates(*old(self), *final(self), id, page@),
            BufferPool::same_files(*old(self), *final(self)),
    {
        let i = match self.get_frame_by_ppid(id) {
            Some(i) => i,
            None => self.bring_page_into_pool(id),
        };
        let ghost pre = *self;
        proof {
            pre.lemma_page_at_cached(i as int, id);
        }
        self.frames.set(
            i,
            Frame { page: Some(page), dirty: true, empty: false, id: Some(id) },
        );
        proof {
            let post = *self;
            assert forall|j: int| 0 <= j < post.frames@.len() implies #[trigger] post.frame_ok(
                j,
            ) by {
                assert(pre.frame_ok(j));
            }
            assert forall|j: int, k: int|
                0 <= j < post.frames@.len() && 0 <= k < post.frames@.len() && j != k
                    && !post.frames@[j].empty && !post.frames@[k].empty implies post.frames@[j].id
                != post.frames@[k].id by {
                assert(pre.frames@[j].id == post.frames@[j].id || j == i);
                assert(pre.frames@[k].id == post.frames@[k].id || k == i);
            }
            BufferPool::lemma_store_wf_stable(pre, post);
            assert(post.wf());
            post.lemma_page_at_cached(i as int, id);
            assert forall|x: PhysicalPageID| pre.is_allocated(x) && x != id implies #[trigger] post.page_at(
                x,
            ) == pre.page_at(x) by {
                if pre.cached(x) {
                    let j = pre.cache_index(x);
                    pre.lemma_page_at_cached(j, x);
                    assert(j != i);
                    assert(post.frame_holds(j, x));
                    post.lemma_page_at_cached(j, x);
                } else {
                    assert(!post.cached(x)) by {
                        if post.cached(x) {
                            let k = post.cache_index(x);
                            assert(post.frame_holds(k, x));
                            if k == i {
                                assert(x == id);
                            } else {
                                assert(pre.frame_holds(k, x));
                            }
                        }
                    }
                }
            }
            assert(post.names() =~= pre.names());
        }
    }

    /// The cursor recorded in a page view.
    pub open spec fn view_cursor(s: Seq<Option<i64>>) -> int {
        s[CELLS_PER_PAGE - 1].unwrap() as int
    }

    /// The current content of an allocated page is a well-formed page
    /// view.
    pub proof fn lemma_page_at_wf(self, id: PhysicalPageID)
        requires
            self.wf(),
            self.is_allocated(id),
        ensures
            self.page_at(id).len() == CELLS_PER_PAGE,
            self.page_at(id)[CELLS_PER_PAGE - 1] is Some,
            0 <= BufferPool::view_cursor(self.page_at(id)) <= CELLS_PER_PAGE - 1,
    {
        if self.cached(id) {
            let j = self.cache_index(id);
            assert(self.frame_holds(j, id));
            assert(self.frame_ok(j));
            self.lemma_page_at_cached(j, id);
        } else {
            assert(self.store_page(id).wf());
        }
    }

    /// Write to a page but keep every cell whose incoming value is the
    /// null sentinel, and keep the cursor cell.
    pub fn write_page_masked(&mut self, page: Page, id: PhysicalPageID)
        requires
            old(self).wf(),
            old(self).is_allocated(id),
            page.wf(),
        ensures
            final(self).wf(),
            BufferPool::updates(
                *old(self),
                *final(self),
                id,
                masked_combine(page@, old(self).page_at(id)),
            ),
            BufferPool::same_files(*old(self), *final(self)),
    {
        proof {
            old(self).lemma_page_at_wf(id);
        }
        let current = self.request_page(id);
        let incoming = page.get_cells();
        let existing = current.get_cells();

        let mut modified_cells: Vec<Cell> = Vec::new();
        let mut i: usize = 0;
        while i < CELLS_PER_PAGE - 1
            invariant
                i == modified_cells@.len() <= CELLS_PER_PAGE - 1,
                incoming@.map(|_k: int, c: Cell| c.0) == page@,
                existing@.map(|_k: int, c: Cell| c.0) == current@,
                page.wf(),
                current@.len() == CELLS_PER_PAGE,
                forall|j: int| 0 <= j < i ==> modified_cells@[j].0 == (if page@[j] is Some {
                    page@[j]
                } else {
                    current@[j]
                }),
            decreases CELLS_PER_PAGE - 1 - i,
        {
            assert(incoming@[i as int].0 == page@[i as int]);
            assert(existing@[i as int].0 == current@[i as int]);
            if incoming[i].value().is_some() {
                modified_cells.push(incoming[i]);
            } else {
                modified_cells.push(existing[i]);
            }
            i = i + 1;
        }
        assert(existing@[CELLS_PER_PAGE - 1].0 == current@[CELLS_PER_PAGE - 1]);
        modified_cells.push(existing[CELLS_PER_PAGE - 1]);
        let merged = Page::from_data(modified_cells);
        assert(merged@ =~= masked_combine(page@, old(self).page_at(id)));
        self.write_page(merged, id);
    }

    /// Adds a table name to the registry if it isn't there already and
    /// returns its identifier; an already registered name keeps its
    /// identifier.
    pub fn register_table_name(&mut self, name: &String) -> (r: usize)
        requires
            old(self).wf(),
        ensures
            final(self).wf(),
            forall|x: PhysicalPageID| old(self).is_allocated(x) <==> final(self).is_allocated(x),
            forall|x: PhysicalPageID| old(self).is_allocated(x) ==> #[trigger] final(self).page_at(
                x,
            ) == old(self).page_at(x),
            r < final(self).names().len(),
            final(self).names()[r as int] == name@,
            old(self).has_name(name@) ==> *final(self) == *old(self),
            !old(self).has_name(name@) ==> {
                &&& r == old(self).names().len()
                &&& final(self).names() == old(self).names().push(name@)
                &&& final(self).store@.len() == old(self).store@.len() + 1
                &&& final(self).store@[r as int]@.len() == 0
                &&& forall|t: int| 0 <= t < old(self).store@.len() ==> final(self).store@[t]
                    == old(self).store@[t]
            },
    {
        let ghost pre = *self;
        let mut i: usize = 0;
        while i < self.table_names.len()
            invariant
                *self == pre,
                pre.wf(),
                i <= pre.table_names@.len(),
                forall|j: int| 0 <= j < i ==> pre.names()[j] != name@,
            decreases pre.table_names@.len() - i,
        {
            if self.table_names[i] == *name {
                assert(pre.names()[i as int] == name@);
                return i;
            }
            i = i + 1;
        }
        assert(!pre.has_name(name@));
        let r = self.table_names.len();
        self.table_names.push(name.clone());
        self.store.push(Vec::new());
        proof {
            let post = *self;
            assert(post.names() =~= pre.names().push(name@));
            assert forall|x: PhysicalPageID| pre.is_allocated(x) <==> post.is_allocated(x) by {
                if post.is_allocated(x) && x.table_identifier == pre.store@.len() {
                    assert(post.store@[x.table_identifier as int]@.len() == 0);
                }
            }
            assert forall|j: int| 0 <= j < post.frames@.len() implies #[trigger] post.frame_ok(
                j,
            ) by {
                assert(pre.frame_ok(j));
            }
            assert forall|x: PhysicalPageID| post.is_allocated(x) implies (
            #[trigger] post.store_page(x)).wf() by {
                assert(pre.store_page(x).wf());
            }
            assert(post.wf());
            assert forall|x: PhysicalPageID| pre.is_allocated(x) implies #[trigger] post.page_at(x)
                == pre.page_at(x) by {
                if pre.cached(x) {
                    let j = pre.cache_index(x);
                    pre.lemma_page_at_cached(j, x);
                    assert(post.frame_holds(j, x));
                    post.lemma_page_at_cached(j, x);
                } else {
                    assert(!post.cached(x)) by {
                        if post.cached(x) {
                            let k = post.cache_index(x);
                            assert(post.frame_holds(k, x));
                            assert(pre.frame_holds(k, x));
                        }
                    }
                    assert(post.store_page(x) == pre.store_page(x));
                }
            }
        }
        r
    }

    /// A table name is registered.
    pub open spec fn has_name(self, n: Seq<char>) -> bool {
        exists|j: int| 0 <= j < self.names().len() && self.names()[j] == n
    }

    /// Create the column files of a freshly registered table, one per
    /// column and all empty.
    pub fn create_table_files(&mut self, table_id: usize, num_columns: usize)
        requires
            old(self).wf(),
            table_id < old(self).store@.len(),
            old(self).store@[table_id as int]@.len() == 0,
        ensures
            final(self).wf(),
            BufferPool::preserves(*old(self), *final(self)),
            final(self).store@.len() == old(self).store@.len(),
            final(self).store@[table_id as int]@.len() == num_columns,
            forall|c: int| 0 <= c < num_columns ==> final(self).store@[table_id as int]@[c]@.len()
                == 0,
            forall|t: int| 0 <= t < old(self).store@.len() && t != table_id ==> final(self).store@[t] == old(self).store@[t],
    {
        let ghost pre = *self;
        let mut c: usize = 0;
        while c < num_columns
            invariant
                pre.wf(),
                table_id < pre.store@.len(),
                pre.store@[table_id as int]@.len() == 0,
                c <= num_columns,
                self.frames == pre.frames,
                self.table_names == pre.table_names,
                self.store@.len() == pre.store@.len(),
                self.store@[table_id as int]@.len() == c,
                forall|k: int| 0 <= k < c ==> self.store@[table_id as int]@[k]@.len() == 0,
                forall|t: int| 0 <= t < pre.store@.len() && t != table_id ==> self.store@[t]
                    == pre.store@[t],
            decreases num_columns - c,
        {
            self.store[table_id].push(Vec::new());
            c = c + 1;
        }
        proof {
            let post = *self;
            assert forall|x: PhysicalPageID| pre.is_allocated(x) <==> post.is_allocated(x) by {
                if x.table_identifier == table_id {
                    if post.is_allocated(x) {
                        assert(post.store@[table_id as int]@[x.column_index as int]@.len() == 0);
                    }
                }
            }
            assert forall|x: PhysicalPageID| pre.is_allocated(x) implies post.store_page(x)
                == pre.store_page(x) by {}
            assert forall|j: int| 0 <= j < post.frames@.len() implies #[trigger] post.frame_ok(
                j,
            ) by {
                assert(pre.frame_ok(j));
            }
            assert forall|x: PhysicalPageID| post.is_allocated(x) implies (
            #[trigger] post.store_page(x)).wf() by {
                assert(pre.store_page(x).wf());
            }
            assert(post.wf());
            assert forall|x: PhysicalPageID| pre.is_allocated(x) implies #[trigger] post.page_at(x)
                == pre.page_at(x) by {
                if pre.cached(x) {
                    let j = pre.cache_index(x);
                    pre.lemma_page_at_cached(j, x);
                    assert(post.frame_holds(j, x));
                    post.lemma_page_at_cached(j, x);
                } else {
                    assert(!post.cached(x)) by {
                        if post.cached(x) {
                            let k = post.cache_index(x);
                            assert(post.frame_holds(k, x));
                            assert(pre.frame_holds(k, x));
                        }
                    }
                }
            }
            assert(post.names() =~= pre.names());
        }
    }

    /// Append a whole column file to a table; used when an embedder loads
    /// a persisted database back into memory. Returns the column index.
    pub fn install_column(&mut self, table_id: usize, pages: Vec<Page>) -> (r: usize)
        requires
            old(self).wf(),
            table_id < old(self).store@.len(),
            forall|p: int| 0 <= p < pages@.len() ==> (#[trigger] pages@[p]).wf(),
        ensures
            final(self).wf(),
            r == old(self).store@[table_id as int]@.len(),
            final(self).names() == old(self).names(),
            forall|x: PhysicalPageID| old(self).is_allocated(x) ==> final(self).is_allocated(x)
                && #[trigger] final(self).page_at(x) == old(self).page_at(x),
            forall|x: PhysicalPageID| final(self).is_allocated(x) ==> old(self).is_allocated(x)
                || (x.table_identifier == table_id && x.column_index == r && x.page_index
                    < pages@.len()),
            forall|x: PhysicalPageID|
                x.table_identifier == table_id && x.column_index == r && x.page_index
                    < pages@.len() ==> #[trigger] final(self).page_at(x) == pages@[
                    x.page_index as int
                ]@,
    {
        let ghost pre = *self;
        let r = self.store[table_id].len();
        self.store[table_id].push(pages);
        proof {
            let post = *self;
            assert forall|j: int| 0 <= j < post.frames@.len() implies #[trigger] post.frame_ok(
                j,
            ) by {
                assert(pre.frame_ok(j));
            }
            assert forall|x: PhysicalPageID| post.is_allocated(x) implies (
            #[trigger] post.store_page(x)).wf() by {
                if pre.is_allocated(x) {
                    assert(pre.store_page(x).wf());
                } else {
                    assert(x.table_identifier == table_id && x.column_index == r);
                    assert(post.store_page(x) == pages@[x.page_index as int]);
                }
            }
            assert(post.wf());
            assert forall|x: PhysicalPageID| pre.is_allocated(x) implies post.is_allocated(x)
                && #[trigger] post.page_at(x) == pre.page_at(x) by {
                if pre.cached(x) {
                    let j = pre.cache_index(x);
                    pre.lemma_page_at_cached(j, x);
                    assert(post.frame_holds(j, x));
                    post.lemma_page_at_cached(j, x);
                } else {
                    assert(!post.cached(x)) by {
                        if post.cached(x) {
                            let k = post.cache_index(x);
                            assert(post.frame_holds(k, x));
                            assert(pre.frame_holds(k, x));
                        }
                    }
                    assert(post.store_page(x) == pre.store_page(x));
                }
            }
            assert forall|x: PhysicalPageID|
                x.table_identifier == table_id && x.column_index == r && x.page_index
                    < pages@.len() implies #[trigger] post.page_at(x) == pages@[
                x.page_index as int
            ]@ by {
                let p = x.page_index as int;
                assert(!post.cached(x)) by {
                    if post.cached(x) {
                        let k = post.cache_index(x);
                        assert(post.frame_holds(k, x));
                        assert(pre.frame_holds(k, x));
                        assert(pre.frame_ok(k));
                    }
                }
                assert(post.store@[table_id as int]@ == pre.store@[table_id as int]@.push(
                    pages,
                ));
                assert(post.store@[table_id as int]@[r as int] == pages);
                assert(post.store_page(x) == pages@[p]);
            }
            assert(post.names() =~= pre.names());
        }
        r
    }

    /// Allocate an entirely new page at the end of a column file. Returns
    /// the physical page ID of the newly allocated page.
    pub fn allocate_page(&mut self, table_id: usize, column_index: usize) -> (r: PhysicalPageID)
        requires
            old(self).wf(),
            table_id < old(self).store@.len(),
            column_index < old(self).store@[table_id as int]@.len(),
        ensures
            final(self).wf(),
            r == (PhysicalPageID {
                table_identifier: table_id,
                column_index,
                page_index: old(self).store@[table_id as int]@[column_index as int]@.len() as usize,
            }),
            !old(self).is_allocated(r),
            forall|x: PhysicalPageID| final(self).is_allocated(x) <==> old(self).is_allocated(x)
                || x == r,
            final(self).page_at(r) == empty_page_view(),
            forall|x: PhysicalPageID| old(self).is_allocated(x) ==> #[trigger] final(self).page_at(
                x,
            ) == old(self).page_at(x),
            final(self).names() == old(self).names(),
            final(self).store@.len() == old(self).store@.len(),
            final(self).store@[table_id as int]@.len() == old(self).store@[table_id as int]@.len(),
            forall|t: int| 0 <= t < old(self).store@.len() && t != table_id ==> final(self).store@[t] == old(self).store@[t],
            forall|c: int|
                0 <= c < old(self).store@[table_id as int]@.len() && c != column_index ==> final(self).store@[table_id as int]@[c] == old(self).store@[table_id as int]@[c],
            final(self).store@[table_id as int]@[column_index as int]@.len() == old(self).store@[
                table_id as int
            ]@[column_index as int]@.len() + 1,
    {
        let ghost pre = *self;
        let p = self.store[table_id][column_index].len();
        let id = PhysicalPageID::new(table_id, column_index, p);
        let fresh = Page::new();
        assert(fresh@ =~= empty_page_view());
        self.store[table_id][column_index].push(fresh);
        proof {
            let post = *self;
            assert forall|x: PhysicalPageID| pre.is_allocated(x) implies post.is_allocated(x)
                && post.store_page(x) == pre.store_page(x) by {
                assert(post.store@ =~= pre.store@.update(
                    table_id as int,
                    post.store@[table_id as int],
                ));
            }
            assert forall|j: int| 0 <= j < post.frames@.len() implies #[trigger] post.frame_ok(
                j,
            ) by {
                assert(pre.frame_ok(j));
            }
            assert forall|x: PhysicalPageID| post.is_allocated(x) implies (
            #[trigger] post.store_page(x)).wf() by {
                if pre.is_allocated(x) {
                    assert(pre.store_page(x).wf());
                } else {
                    assert(x == id);
                }
            }
            assert(post.wf());
            assert forall|x: PhysicalPageID| pre.is_allocated(x) implies #[trigger] post.page_at(x)
                == pre.page_at(x) by {
                if pre.cached(x) {
                    let j = pre.cache_index(x);
                    pre.lemma_page_at_cached(j, x);
                    assert(post.frame_holds(j, x));
                    post.lemma_page_at_cached(j, x);
                } else {
                    assert(!post.cached(x)) by {
                        if post.cached(x) {
                            let k = post.cache_index(x);
                            assert(post.frame_holds(k, x));
                            assert(pre.frame_holds(k, x));
                        }
                    }
                }
            }
            assert(!post.cached(id)) by {
                if post.cached(id) {
                    let k = post.cache_index(id);
                    assert(post.frame_holds(k, id));
                    assert(pre.frame_holds(k, id));
                    assert(pre.frame_ok(k));
                }
            }
            assert(post.page_at(id) == fresh@);
            assert(post.names() =~= pre.names());
        }
        id
    }

    /// Create one new page in each of the first `count` column files of a
    /// table: page `k` of the result is a fresh page in column `k`.
    pub fn allocate_pages(&mut self, table_id: usize, count: usize) -> (r: Vec<PhysicalPageID>)
        requires
            old(self).wf(),
            table_id < old(self).store@.len(),
            count <= old(self).store@[table_id as int]@.len(),
        ensures
            final(self).wf(),
            final(self).names() == old(self).names(),
            r@.len() == count,
            forall|k: int| 0 <= k < count ==> r@[k] == (PhysicalPageID {
                table_identifier: table_id,
                column_index: k as usize,
                page_index: old(self).store@[table_id as int]@[k]@.len() as usize,
            }),
            forall|k: int| 0 <= k < count ==> final(self).is_allocated(#[trigger] r@[k]) && final(self).page_at(r@[k]) == empty_page_view(),
            forall|x: PhysicalPageID| old(self).is_allocated(x) ==> final(self).is_allocated(x)
                && #[trigger] final(self).page_at(x) == old(self).page_at(x),
            forall|x: PhysicalPageID| final(self).is_allocated(x) ==> old(self).is_allocated(x)
                || (exists|k: int| 0 <= k < count && r@[k] == x),
            forall|k: int| 0 <= k < count ==> !old(self).is_allocated(#[trigger] r@[k]),
            final(self).store@.len() == old(self).store@.len(),
            forall|t: int| 0 <= t < old(self).store@.len() ==> #[trigger] final(self).store@[
                t
            ]@.len() == old(self).store@[t]@.len(),
            forall|t: int, c: int|
                0 <= t < old(self).store@.len() && 0 <= c < old(self).store@[t]@.len() && !(t
                    == table_id && c < count) ==> #[trigger] final(self).store@[t]@[c]@.len()
                    == old(self).store@[t]@[c]@.len(),
            forall|c: int|
                0 <= c < count ==> #[trigger] final(self).store@[table_id as int]@[c]@.len()
                    == old(self).store@[table_id as int]@[c]@.len() + 1,
    {
        let ghost pre = *self;
        let mut r: Vec<PhysicalPageID> = Vec::new();
        let mut k: usize = 0;
        while k < count
            invariant
                self.wf(),
                pre.wf(),
                table_id < pre.store@.len(),
                count <= pre.store@[table_id as int]@.len(),
                k == r@.len() <= count,
                self.names() == pre.names(),
                self.store@.len() == pre.store@.len(),
                self.store@[table_id as int]@.len() == pre.store@[table_id as int]@.len(),
                forall|c: int| k <= c < pre.store@[table_id as int]@.len() ==> self.store@[
                    table_id as int
                ]@[c] == pre.store@[table_id as int]@[c],
                forall|j: int| 0 <= j < k ==> r@[j] == (PhysicalPageID {
                    table_identifier: table_id,
                    column_index: j as usize,
                    page_index: pre.store@[table_id as int]@[j]@.len() as usize,
                }),
                forall|j: int| 0 <= j < k ==> self.is_allocated(#[trigger] r@[j]) && self.page_at(
                    r@[j],
                ) == empty_page_view(),
                forall|x: PhysicalPageID| pre.is_allocated(x) ==> #[trigger] self.is_allocated(
                    x,
                ),
                forall|x: PhysicalPageID| pre.is_allocated(x) ==> #[trigger] self.page_at(x)
                    == pre.page_at(x),
                forall|x: PhysicalPageID| #[trigger] self.is_allocated(x) ==> pre.is_allocated(x)
                    || (exists|j: int| 0 <= j < k && r@[j] == x),
                forall|j: int| 0 <= j < k ==> !pre.is_allocated(#[trigger] r@[j]),
                self.store@.len() == pre.store@.len(),
                forall|t: int| 0 <= t < pre.store@.len() ==> #[trigger] self.store@[t]@.len()
                    == pre.store@[t]@.len(),
                forall|t: int, c: int|
                    0 <= t < pre.store@.len() && 0 <= c < pre.store@[t]@.len() && !(t == table_id
                        && c < k) ==> #[trigger] self.store@[t]@[c]@.len() == pre.store@[t]@[
                    c
                ]@.len(),
                forall|c: int|
                    0 <= c < k ==> #[trigger] self.store@[table_id as int]@[c]@.len()
                        == pre.store@[table_id as int]@[c]@.len() + 1,
            decreases count - k,
        {
            let ghost cur = *self;
            let id = self.allocate_page(table_id, k);
            let ghost r_prev = r;
            r.push(id);
            proof {
                let post = *self;
                assert(cur.store@[table_id as int]@[k as int] == pre.store@[table_id as int]@[
                    k as int
                ]);
                assert(r@[k as int] == id);
                assert forall|j: int|
                    0 <= j < k + 1 implies post.is_allocated(#[trigger] r@[j]) && post.page_at(
                    r@[j],
                ) == empty_page_view() by {
                    if j < k {
                        assert(r@[j].column_index == j && id.column_index == k);
                        assert(r@[j] != id);
                        assert(cur.is_allocated(r@[j]));
                        assert(cur.page_at(r@[j]) == empty_page_view());
                    }
                }
                assert forall|x: PhysicalPageID|
                    pre.is_allocated(x) implies post.is_allocated(x) && #[trigger] post.page_at(x)
                    == pre.page_at(x) by {
                    assert(cur.is_allocated(x) && cur.page_at(x) == pre.page_at(x));
                    assert(x != id);
                }
                assert forall|x: PhysicalPageID|
                    post.is_allocated(x) implies pre.is_allocated(x) || (exists|j: int|
                    0 <= j < k + 1 && r@[j] == x) by {
                    if !pre.is_allocated(x) {
                        if x == id {
                            assert(r@[k as int] == x);
                        } else {
                            assert(cur.is_allocated(x));
                            let j = choose|j: int| 0 <= j < k && r_prev@[j] == x;
                            assert(r@[j] == x);
                        }
                    }
                }
                assert forall|j: int| 0 <= j < k + 1 implies !pre.is_allocated(
                    #[trigger] r@[j],
                ) by {
                    if j == k {
                        if pre.is_allocated(id) {
                            assert(cur.is_allocated(id));
                        }
                    }
                }
            }
            k = k + 1;
        }
        r
    }

    /// Write a value given an offset on a page.
    pub fn write_value(&mut self, page_id: PhysicalPageID, offset: Offset, value: Option<i64>) -> (r:
        Result<(), DatabaseError>)
        requires
            old(self).wf(),
            old(self).is_allocated(page_id),
        ensures
            final(self).wf(),
            offset < CELLS_PER_PAGE - 1 ==> {
                &&& r == Ok::<(), DatabaseError>(())
                &&& BufferPool::updates(
                    *old(self),
                    *final(self),
                    page_id,
                    old(self).page_at(page_id).update(offset as int, value),
                )
            },
            offset >= CELLS_PER_PAGE - 1 ==> {
                &&& r == Err::<(), DatabaseError>(DatabaseError::OffsetOOB)
                &&& BufferPool::preserves(*old(self), *final(self))
            },
            BufferPool::same_files(*old(self), *final(self)),
    {
        proof {
            old(self).lemma_page_at_wf(page_id);
        }
        // First, grab the requested page.
        let mut page = self.request_page(page_id);

        // Next, write the data.
        match page.write(offset, value) {
            Ok(_) => {},
            Err(e) => {
                return Err(e);
            },
        }

        // Finally, write the page back and return.
        self.write_page(page, page_id);
        Ok(())
    }

    /// Write a value to the next available offset on a page.
    pub fn write_next_value(&mut self, page_id: PhysicalPageID, value: Option<i64>) -> (r: Result<
        Offset,
        DatabaseError,
    >)
        requires
            old(self).wf(),
            old(self).is_allocated(page_id),
        ensures
            final(self).wf(),
            BufferPool::view_cursor(old(self).page_at(page_id)) < CELLS_PER_PAGE - 1 ==> {
                &&& r == Ok::<Offset, DatabaseError>(
                    BufferPool::view_cursor(old(self).page_at(page_id)) as Offset,
                )
                &&& BufferPool::updates(
                    *old(self),
                    *final(self),
                    page_id,
                    old(self).page_at(page_id).update(
                        BufferPool::view_cursor(old(self).page_at(page_id)),
                        value,
                    ).update(
                        CELLS_PER_PAGE - 1,
                        Some((BufferPool::view_cursor(old(self).page_at(page_id)) + 1) as i64),
                    ),
                )
            },
            BufferPool::view_cursor(old(self).page_at(page_id)) >= CELLS_PER_PAGE - 1 ==> {
                &&& r == Err::<Offset, DatabaseError>(DatabaseError::OffsetOOB)
                &&& BufferPool::preserves(*old(self), *final(self))
            },
            BufferPool::same_files(*old(self), *final(self)),
    {
        proof {
            old(self).lemma_page_at_wf(page_id);
        }
        // First, grab the requested page.
        let mut page = self.request_page(page_id);

        // Next, write the data.
        let offset = match page.write_next(value) {
            Ok(o) => o,
            Err(e) => {
                return Err(e);
            },
        };

        // Finally, write the page back and return.
        self.write_page(page, page_id);
        Ok(offset)
    }

    /// Read the value at index `offset` on the page with id `page_id`.
    pub fn read(&mut self, page_id: PhysicalPageID, offset: Offset) -> (r: Result<
        Option<i64>,
        DatabaseError,
    >)
        requires
            old(self).wf(),
            old(self).is_allocated(page_id),
        ensures
            final(self).wf(),
            BufferPool::preserves(*old(self), *final(self)),
            BufferPool::same_files(*old(self), *final(self)),
            offset < CELLS_PER_PAGE - 1 ==> r == Ok::<Option<i64>, DatabaseError>(
                old(self).page_at(page_id)[offset as int],
            ),
            offset >= CELLS_PER_PAGE - 1 ==> r == Err::<Option<i64>, DatabaseError>(
                DatabaseError::OffsetOOB,
            ),
    {
        proof {
            old(self).lemma_page_at_wf(page_id);
        }
        // First, grab the requested page.
        let page = self.request_page(page_id);

        // Then, return the value at the specified offset.
        page.read(offset)
    }

    /// Flush every dirty frame back to the page store, so that the store
    /// alone carries the current content of every page; the embedder then
    /// persists the store and the name registry on close.
    pub fn persist(&mut self)
        requires
            old(self).wf(),
        ensures
            final(self).wf(),
            BufferPool::preserves(*old(self), *final(self)),
            BufferPool::same_files(*old(self), *final(self)),
            forall|x: PhysicalPageID| final(self).is_allocated(x) ==> #[trigger] final(self).store_page(x)@ == final(self).page_at(x),
    {
        let ghost pre = *self;
        let mut i: usize = 0;
        while i < BP_NUM_FRAMES
            invariant
                self.wf(),
                pre.wf(),
                BufferPool::preserves(pre, *self),
                BufferPool::same_files(pre, *self),
                self.frames@.len() == BP_NUM_FRAMES,
                i <= BP_NUM_FRAMES,
                forall|j: int| 0 <= j < i ==> !(#[trigger] self.frames@[j]).dirty,
            decreases BP_NUM_FRAMES - i,
        {
            if !self.frames[i].empty && self.frames[i].dirty {
                self.flush_frame(i);
            }
            proof {
                assert(self.frame_ok(i as int));
            }
            i = i + 1;
        }
        proof {
            let post = *self;
            assert forall|x: PhysicalPageID| post.is_allocated(x) implies #[trigger] post.store_page(
                x,
            )@ == post.page_at(x) by {
                if post.cached(x) {
                    let j = post.cache_index(x);
                    assert(post.frame_holds(j, x));
                    post.lemma_page_at_cached(j, x);
                    assert(post.frame_ok(j));
                    assert(!post.frames@[j].dirty);
                }
            }
        }
    }

    /// The number of registered tables.
    pub fn table_count(&self) -> (r: usize)
        ensures
            r == self.names().len(),
    {
        self.table_names.len()
    }

    /// The name of the table with the given identifier.
    pub fn table_name(&self, table_id: usize) -> (r: &String)
        requires
            table_id < self.names().len(),
        ensures
            r@ == self.names()[table_id as int],
    {
        &self.table_names[table_id]
    }

    /// The number of column files of a table.
    pub fn column_count(&self, table_id: usize) -> (r: usize)
        requires
            table_id < self.store@.len(),
        ensures
            r == self.store@[table_id as int]@.len(),
    {
        self.store[table_id].len()
    }

    /// The number of pages in a column file.
    pub fn page_count(&self, table_id: usize, column_index: usize) -> (r: usize)
        requires
            table_id < self.store@.len(),
            column_index < self.store@[table_id as int]@.len(),
        ensures
            r == self.store@[table_id as int]@[column_index as int]@.len(),
    {
        self.store[table_id][column_index].len()
    }
}

} // verus!
