use vstd::prelude::*;

verus! {

/// What an id manager holds: the ids handed back (the last one is handed out
/// first) and the next never-used id.
pub struct IdPool {
    pub released: Seq<u64>,
    pub next_id: u64,
}

/// A new manager: nothing released, and ids start at zero.
pub open spec fn initial_pool() -> IdPool {
    IdPool { released: Seq::empty(), next_id: 0 }
}

/// An id can be handed out without the counter overflowing.
pub open spec fn can_allocate(p: IdPool) -> bool {
    p.released.len() > 0 || p.next_id < u64::MAX
}

/// `get`: the most recently released id if there is one, else the next fresh id.
pub open spec fn pool_get(p: IdPool) -> (IdPool, u64) {
    if p.released.len() > 0 {
        (IdPool { released: p.released.drop_last(), next_id: p.next_id }, p.released.last())
    } else {
        (IdPool { released: p.released, next_id: (p.next_id + 1) as u64 }, p.next_id)
    }
}

/// `release`: the id goes on top of the released ones.
pub open spec fn pool_release(p: IdPool, id: u64) -> IdPool {
    IdPool { released: p.released.push(id), next_id: p.next_id }
}

/// An id that was handed out and not handed back.
pub open spec fn in_use(p: IdPool, id: u64) -> bool {
    id < p.next_id && !p.released.contains(id)
}

/// Every released id was handed out once, and none was released twice.
pub open spec fn pool_sound(p: IdPool) -> bool {
    &&& p.released.no_duplicates()
    &&& forall|i: int| 0 <= i < p.released.len() ==> #[trigger] p.released[i] < p.next_id
}

/// Hands out ids, reusing released ones before fresh ones.
pub struct IdManager<T> {
    released: Vec<T>,
    next_id: T,
}

impl View for IdManager<u64> {
    type V = IdPool;

    closed spec fn view(&self) -> IdPool {
        IdPool { released: self.released@, next_id: self.next_id }
    }
}

impl IdManager<u64> {
    /// An empty manager: the first id it hands out is 0.
    pub fn new() -> (r: Self)
        ensures
            r@ == initial_pool(),
    {
        IdManager { released: Vec::new(), next_id: 0 }
    }

    /// Whether `get` can hand out an id without overflowing its counter.
    pub fn can_allocate(&self) -> (r: bool)
        ensures
            r == can_allocate(self@),
    {
        self.released.len() > 0 || self.next_id < u64::MAX
    }

    /// Hands out the most recently released id, or else the next fresh id.
    pub fn get(&mut self) -> (id: u64)
        requires
            can_allocate(old(self)@),
        ensures
            (final(self)@, id) == pool_get(old(self)@),
    {
        if let Some(id) = self.released.pop() {
            return id;
        }
        let next_id = self.next_id;
        self.next_id = self.next_id + 1;
        next_id
    }

    /// Hands an id back; it is the next one `get` returns.
    pub fn release(&mut self, id: u64)
        ensures
            final(self)@ == pool_release(old(self)@, id),
    {
        self.released.push(id);
    }

    /// How many released ids wait to be handed out again.
    pub fn released_count(&self) -> (n: usize)
        ensures
            n == self@.released.len(),
    {
        self.released.len()
    }
}

/// Releasing an id and then asking for one gives that id back and leaves the
/// manager as it was before the release.
pub proof fn law_get_after_release(p: IdPool, id: u64)
    ensures
        pool_get(pool_release(p, id)) == (p, id),
{
    assert(p.released.push(id).drop_last() =~= p.released);
}

/// A fresh id (nothing released) is the counter's value, and the counter moves
/// past it: fresh ids are handed out in strictly increasing order.
pub proof fn law_fresh_ids_increase(p: IdPool)
    requires
        p.released.len() == 0,
        p.next_id < u64::MAX,
    ensures
        pool_get(p).1 == p.next_id,
        pool_get(p).0.next_id == p.next_id + 1,
        pool_get(p).1 < pool_get(p).0.next_id,
{
}

/// The manager never hands out an id that is in use: from a sound state, `get`
/// returns an id not in use, which is in use afterwards, and nothing else changes
/// its status; the state stays sound.
pub proof fn law_get_fresh(p: IdPool)
    requires
        pool_sound(p),
        can_allocate(p),
    ensures
        !in_use(p, pool_get(p).1),
        in_use(pool_get(p).0, pool_get(p).1),
        forall|x: u64| x != pool_get(p).1 ==> (in_use(pool_get(p).0, x) == in_use(p, x)),
        pool_sound(pool_get(p).0),
{
    let (q, id) = pool_get(p);
    if p.released.len() > 0 {
        let last = p.released.len() - 1;
        assert(p.released[last] == id);
        assert(p.released.contains(id));
        assert(!q.released.contains(id)) by {
            if q.released.contains(id) {
                let k = choose|k: int| 0 <= k < q.released.len() && q.released[k] == id;
                assert(p.released[k] == p.released[last]);
            }
        }
        assert forall|x: u64| x != id implies (in_use(q, x) == in_use(p, x)) by {
            if p.released.contains(x) {
                let k = choose|k: int| 0 <= k < p.released.len() && p.released[k] == x;
                assert(k != last);
                assert(q.released[k] == x);
            }
            if q.released.contains(x) {
                let k = choose|k: int| 0 <= k < q.released.len() && q.released[k] == x;
                assert(p.released[k] == x);
            }
        }
        assert(q.released.no_duplicates()) by {
            assert forall|i: int, j: int| 0 <= i < q.released.len() && 0 <= j < q.released.len() && i != j
                implies q.released[i] != q.released[j] by {
                assert(q.released[i] == p.released[i]);
                assert(q.released[j] == p.released[j]);
            }
        }
    } else {
        assert forall|x: u64| x != id implies (in_use(q, x) == in_use(p, x)) by {}
    }
}

/// Releasing an id that is in use keeps the state sound and ends exactly that
/// id's use.
pub proof fn law_release_in_use(p: IdPool, id: u64)
    requires
        pool_sound(p),
        in_use(p, id),
    ensures
        pool_sound(pool_release(p, id)),
        !in_use(pool_release(p, id), id),
        forall|x: u64| x != id ==> (in_use(pool_release(p, id), x) == in_use(p, x)),
{
    let q = pool_release(p, id);
    let n = p.released.len() as int;
    assert(q.released[n] == id);
    assert(q.released.contains(id));
    assert forall|x: u64| x != id implies (in_use(q, x) == in_use(p, x)) by {
        if p.released.contains(x) {
            let k = choose|k: int| 0 <= k < p.released.len() && p.released[k] == x;
            assert(q.released[k] == x);
        }
        if q.released.contains(x) {
            let k = choose|k: int| 0 <= k < q.released.len() && q.released[k] == x;
            assert(k != n);
            assert(p.released[k] == x);
        }
    }
    assert forall|i: int, j: int| 0 <= i < q.released.len() && 0 <= j < q.released.len() && i != j
        implies q.released[i] != q.released[j] by {
        if i < n && j < n {
            assert(q.released[i] == p.released[i]);
            assert(q.released[j] == p.released[j]);
        } else if i < n {
            assert(q.released[i] == p.released[i]);
            assert(p.released.contains(q.released[i]));
        } else {
            assert(q.released[j] == p.released[j]);
            assert(p.released.contains(q.released[j]));
        }
    }
}

/// The counter only grows when every id below it is in use: a fresh id is
/// never taken while a released one is available, so right after `get` takes
/// a fresh id the ids in use are exactly those below the counter. Since the ids
/// in use are always below the counter, the counter is the largest number of
/// ids ever in use at the same time.
pub proof fn law_fresh_only_when_all_in_use(p: IdPool)
    requires
        pool_sound(p),
        can_allocate(p),
        pool_get(p).0.next_id != p.next_id,
    ensures
        forall|x: u64| x < p.next_id ==> in_use(p, x),
        forall|x: u64| in_use(pool_get(p).0, x) <==> x < pool_get(p).0.next_id,
{
    assert(p.released.len() == 0);
    assert forall|x: u64| x < p.next_id implies in_use(p, x) by {
        assert(!p.released.contains(x));
    }
    assert forall|x: u64| in_use(pool_get(p).0, x) <==> x < pool_get(p).0.next_id by {
        assert(!pool_get(p).0.released.contains(x));
    }
}

}
