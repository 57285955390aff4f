use vstd::prelude::*;
use vstd::hash_map::HashMapWithView;
use crate::id::{can_allocate, in_use, pool_get, pool_release, pool_sound, IdManager, IdPool, initial_pool};

verus! {

/// A file handle number.
pub type FhId = u64;

/// An open file.
pub struct Handle<H> {
    pub handle: H,
}

/// The handle numbers in use and the open files behind them.
pub struct FhState<H> {
    pub pool: IdPool,
    pub handles: Map<FhId, H>,
}

/// Every open file's number is in use, and the numbers are handed out soundly.
pub open spec fn fh_sound<H>(s: FhState<H>) -> bool {
    &&& pool_sound(s.pool)
    &&& forall|id: FhId| #[trigger] s.handles.contains_key(id) ==> in_use(s.pool, id)
}

/// The state after opening: the next number is taken, and the file (if it
/// could be opened) is kept under it.
pub open spec fn fh_open<H>(s: FhState<H>, file: Option<H>) -> (FhState<H>, Option<FhId>) {
    let (pool, id) = pool_get(s.pool);
    match file {
        Some(h) => (FhState { pool, handles: s.handles.insert(id, h) }, Some(id)),
        None => (FhState { pool, handles: s.handles }, None),
    }
}

/// The state after releasing `id`: its file is dropped and the number handed back.
pub open spec fn fh_release<H>(s: FhState<H>, id: FhId) -> FhState<H> {
    FhState { pool: pool_release(s.pool, id), handles: s.handles.remove(id) }
}

/// Keeps the open files under their handle numbers.
#[verifier::reject_recursive_types(H)]
pub struct FhManager<H> {
    idman: IdManager<FhId>,
    handle_to_inode: HashMapWithView<FhId, Handle<H>>,
}

impl<H> View for FhManager<H> {
    type V = FhState<H>;

    closed spec fn view(&self) -> FhState<H> {
        FhState {
            pool: self.idman@,
            handles: Map::new(
                |id: FhId| self.handle_to_inode@.contains_key(id),
                |id: FhId| self.handle_to_inode@[id].handle,
            ),
        }
    }
}

impl<H> FhManager<H> {
    /// No open files; the first handle number is 0.
    pub fn new() -> (r: Self)
        ensures
            r@.pool == initial_pool(),
            r@.handles == Map::<FhId, H>::empty(),
    {
        let r = FhManager { idman: IdManager::new(), handle_to_inode: HashMapWithView::new() };
        assert(r@.handles =~= Map::<FhId, H>::empty());
        r
    }

    /// Whether a handle number can be taken without overflowing the counter.
    pub fn can_open(&self) -> (r: bool)
        ensures
            r == can_allocate(self@.pool),
    {
        self.idman.can_allocate()
    }

    /// Takes a handle number and keeps `file` (the file opened for it) under
    /// it. When the file could not be opened (`None`) the number is still
    /// taken, and nothing is kept.
    pub fn open(&mut self, file: Option<H>) -> (r: Option<FhId>)
        requires
            can_allocate(old(self)@.pool),
        ensures
            (final(self)@, r) == fh_open(old(self)@, file),
    {
        let fhid = self.idman.get();
        let fh = match file {
            Some(f) => f,
            None => {
                assert(self@.handles =~= old(self)@.handles);
                return None;
            },
        };
        let handle = Handle { handle: fh };
        self.handle_to_inode.insert(fhid, handle);
        assert(self@.handles =~= old(self)@.handles.insert(fhid, fh));
        Some(fhid)
    }

    /// Drops the file kept under `id` and hands the number back.
    pub fn release(&mut self, id: FhId)
        ensures
            final(self)@ == fh_release(old(self)@, id),
    {
        self.handle_to_inode.remove(&id);
        self.idman.release(id);
        assert(self@.handles =~= old(self)@.handles.remove(id));
    }

    /// The file kept under `id`.
    pub fn handle(&self, id: FhId) -> (r: Option<&Handle<H>>)
        ensures
            match r {
                Some(h) => self@.handles.contains_key(id) && h.handle == self@.handles[id],
                None => !self@.handles.contains_key(id),
            },
    {
        self.handle_to_inode.get(&id)
    }
}

impl<H> Default for FhManager<H> {
    fn default() -> (r: Self)
        ensures
            r@.pool == initial_pool(),
            r@.handles == Map::<FhId, H>::empty(),
    {
        Self::new()
    }
}

/// What is opened can be read back: the file opened under a number is the
/// file the manager gives for that number.
pub proof fn law_open_then_handle<H>(s: FhState<H>, file: H)
    ensures
        fh_open(s, Some(file)).1 matches Some(id) && fh_open(s, Some(file)).0.handles.contains_key(id)
            && fh_open(s, Some(file)).0.handles[id] == file,
{
}

/// A released number has no file behind it any more.
pub proof fn law_release_then_no_handle<H>(s: FhState<H>, id: FhId)
    ensures
        !fh_release(s, id).handles.contains_key(id),
{
}

/// Opening never takes the number of a file that is still open, so no open
/// file is lost; the other open files stay as they were, and the state stays sound.
pub proof fn law_open_keeps_open_files<H>(s: FhState<H>, file: Option<H>)
    requires
        fh_sound(s),
        can_allocate(s.pool),
    ensures
        !s.handles.contains_key(pool_get(s.pool).1),
        forall|id: FhId| #[trigger] s.handles.contains_key(id) ==>
            fh_open(s, file).0.handles.contains_key(id) && fh_open(s, file).0.handles[id] == s.handles[id],
        fh_sound(fh_open(s, file).0),
{
    crate::id::law_get_fresh(s.pool);
    let (pool, nid) = pool_get(s.pool);
    let t = fh_open(s, file).0;
    assert forall|id: FhId| #[trigger] t.handles.contains_key(id) implies in_use(t.pool, id) by {
        if id != nid {
            assert(s.handles.contains_key(id));
        }
    }
}

/// Releasing an open file's number keeps the state sound.
pub proof fn law_release_open_file<H>(s: FhState<H>, id: FhId)
    requires
        fh_sound(s),
        s.handles.contains_key(id),
    ensures
        fh_sound(fh_release(s, id)),
{
    crate::id::law_release_in_use(s.pool, id);
    let t = fh_release(s, id);
    assert forall|x: FhId| #[trigger] t.handles.contains_key(x) implies in_use(t.pool, x) by {
        assert(s.handles.contains_key(x));
    }
}

}
