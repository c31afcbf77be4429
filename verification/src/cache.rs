//! The compiled-kernel cache.
//!
//! One cache belongs to one operator instance and its device context. It maps
//! kernel names to pools of ready, reusable kernel handles: a launch takes a
//! handle out of the name's pool, binds and enqueues it, and returns it
//! afterwards. Specializing a fresh handle from the compiled program is the
//! backend's work, so a lookup that finds the pool empty (or the name new)
//! reports that a fresh handle is needed; the name set itself is append-only.
//! Returning a kernel under a name that was never looked up breaks the
//! caller-ordering invariant and is excluded outright rather than reported as
//! a recoverable error.
//!
//! Names are integer tags: the backend keeps the mapping from its entry-point
//! strings to tags at the boundary.

use crate::pool::Pool;
use vstd::prelude::*;

verus! {

/// What one `get_kernel` lookup yields over the cache's map view: the handle
/// handed out (if any) and the map afterwards.
pub open spec fn spec_get_kernel<K>(m: Map<u64, Seq<K>>, name: u64) -> (
    Option<K>,
    Map<u64, Seq<K>>,
) {
    if m.contains_key(name) {
        if m[name].len() > 0 {
            (Some(m[name].last()), m.insert(name, m[name].drop_last()))
        } else {
            (None, m)
        }
    } else {
        (None, m.insert(name, Seq::empty()))
    }
}

/// What one `set_kernel` return does to the cache's map view.
pub open spec fn spec_set_kernel<K>(m: Map<u64, Seq<K>>, name: u64, kernel: K) -> Map<
    u64,
    Seq<K>,
> {
    m.insert(name, m[name].push(kernel))
}

struct Entry<K> {
    name: u64,
    pool: Pool<K>,
}

spec fn map_of<K>(entries: Seq<Entry<K>>) -> Map<u64, Seq<K>>
    decreases entries.len(),
{
    if entries.len() == 0 {
        Map::empty()
    } else {
        map_of(entries.drop_last()).insert(entries.last().name, entries.last().pool@)
    }
}

spec fn unique_names<K>(entries: Seq<Entry<K>>) -> bool {
    forall|i: int, j: int|
        0 <= i < j < entries.len() ==> #[trigger] entries[i].name != #[trigger] entries[j].name
}

proof fn lemma_map_of_at<K>(entries: Seq<Entry<K>>, i: int)
    requires
        unique_names(entries),
        0 <= i < entries.len(),
    ensures
        map_of(entries).contains_key(entries[i].name),
        map_of(entries)[entries[i].name] == entries[i].pool@,
    decreases entries.len(),
{
    if i < entries.len() - 1 {
        assert(entries.drop_last()[i] == entries[i]);
        lemma_map_of_at(entries.drop_last(), i);
    }
}

proof fn lemma_map_of_dom<K>(entries: Seq<Entry<K>>, n: u64)
    requires
        map_of(entries).contains_key(n),
    ensures
        exists|i: int| 0 <= i < entries.len() && #[trigger] entries[i].name == n,
    decreases entries.len(),
{
    if entries.len() > 0 {
        if entries.last().name == n {
            assert(entries[entries.len() - 1].name == n);
        } else {
            lemma_map_of_dom(entries.drop_last(), n);
            let i = choose|i: int|
                0 <= i < entries.drop_last().len() && #[trigger] entries.drop_last()[i].name == n;
            assert(entries[i].name == n);
        }
    }
}

proof fn lemma_map_of_update<K>(entries: Seq<Entry<K>>, i: int, e: Entry<K>)
    requires
        unique_names(entries),
        0 <= i < entries.len(),
        e.name == entries[i].name,
    ensures
        map_of(entries.update(i, e)) == map_of(entries).insert(e.name, e.pool@),
    decreases entries.len(),
{
    let upd = entries.update(i, e);
    if i == entries.len() - 1 {
        assert(upd.drop_last() =~= entries.drop_last());
        assert(upd.last() == e);
        assert(map_of(upd) == map_of(entries.drop_last()).insert(e.name, e.pool@));
        assert(map_of(entries.drop_last()).insert(entries.last().name, entries.last().pool@).insert(
            e.name,
            e.pool@,
        ) =~= map_of(entries.drop_last()).insert(e.name, e.pool@));
    } else {
        assert(upd.drop_last() =~= entries.drop_last().update(i, e));
        assert(upd.last() == entries.last());
        assert(entries.drop_last()[i] == entries[i]);
        lemma_map_of_update(entries.drop_last(), i, e);
        assert(entries.last().name != e.name);
        assert(map_of(entries.drop_last()).insert(e.name, e.pool@).insert(
            entries.last().name,
            entries.last().pool@,
        ) =~= map_of(entries.drop_last()).insert(entries.last().name, entries.last().pool@).insert(
            e.name,
            e.pool@,
        ));
    }
}

/// A pool of ready kernel handles per registered kernel name.
pub struct KernelCache<K> {
    entries: Vec<Entry<K>>,
}

impl<K> KernelCache<K> {
    /// The names registered so far, each with the handles its pool holds,
    /// most recently returned last.
    pub closed spec fn view(&self) -> Map<u64, Seq<K>> {
        map_of(self.entries@)
    }

    /// Registered names are distinct; every method keeps it that way.
    pub closed spec fn wf(&self) -> bool {
        unique_names(self.entries@)
    }

    /// Creates the cache with no registered names; the compiled program it
    /// serves is built exactly once, at operator construction.
    pub fn new() -> (r: KernelCache<K>)
        ensures
            r.wf(),
            r.view() == Map::<u64, Seq<K>>::empty(),
    {
        KernelCache { entries: Vec::new() }
    }

    /// Looks a ready kernel up by name: hands out the most recently returned
    /// pooled handle, or reports that a fresh one must be specialized —
    /// registering the name on first sight, so the handle can later be
    /// returned through `set_kernel`.
    pub fn get_kernel(&mut self, name: u64) -> (r: Option<K>)
        requires
            old(self).wf(),
        ensures
            final(self).wf(),
            r == spec_get_kernel(old(self).view(), name).0,
            final(self).view() == spec_get_kernel(old(self).view(), name).1,
            final(self).view().contains_key(name),
    {
        let ghost m = self.view();
        let n = self.entries.len();
        let mut i: usize = 0;
        while i < n
            invariant
                old(self).wf(),
                m == old(self).view(),
                self.entries@ == old(self).entries@,
                n == self.entries@.len(),
                i <= n,
                forall|j: int| 0 <= j < i ==> #[trigger] self.entries@[j].name != name,
            decreases n - i,
        {
            if self.entries[i].name == name {
                proof {
                    lemma_map_of_at(self.entries@, i as int);
                }
                let ghost old_entries = self.entries@;
                let mut entry = self.entries.remove(i);
                let r = entry.pool.pop();
                let ghost new_entry = Entry { name, pool: entry.pool };
                self.entries.insert(i, entry);
                proof {
                    assert(self.entries@ =~= old_entries.update(i as int, new_entry));
                    lemma_map_of_update(old_entries, i as int, new_entry);
                    assert(m[name].len() == 0 ==> m.insert(name, new_entry.pool@) =~= m);
                    assert forall|k: int|
                        0 <= k < self.entries@.len() implies #[trigger] self.entries@[k].name
                        == old_entries[k].name by {}
                    assert forall|x: int, y: int|
                        0 <= x < y < self.entries@.len() implies #[trigger] self.entries@[x].name
                        != #[trigger] self.entries@[y].name by {
                        assert(old_entries[x].name != old_entries[y].name);
                    }
                    lemma_map_of_at(self.entries@, i as int);
                }
                return r;
            }
            i = i + 1;
        }
        let entry = Entry { name, pool: Pool::new() };
        let ghost old_entries = self.entries@;
        self.entries.push(entry);
        proof {
            assert(self.entries@.drop_last() =~= old_entries);
            assert(self.view() == m.insert(name, Seq::<K>::empty()));
            if m.contains_key(name) {
                lemma_map_of_dom(old_entries, name);
                assert(false);
            }
            assert(self.entries@.last().name == name);
            assert forall|x: int, y: int|
                0 <= x < y < self.entries@.len() implies #[trigger] self.entries@[x].name
                != #[trigger] self.entries@[y].name by {
                if y == self.entries@.len() - 1 {
                    assert(old_entries[x].name != name);
                } else {
                    assert(old_entries[x] == self.entries@[x]);
                }
            }
        }
        None
    }

    /// Returns a used kernel to its name's pool. The pool must exist, that
    /// is, `get_kernel` was called for the name at least once: returning a
    /// kernel nobody looked up is a caller-ordering violation, excluded here
    /// rather than reported.
    pub fn set_kernel(&mut self, name: u64, kernel: K)
        requires
            old(self).wf(),
            old(self).view().contains_key(name),
        ensures
            final(self).wf(),
            final(self).view() == spec_set_kernel(old(self).view(), name, kernel),
    {
        let ghost m = self.view();
        proof {
            lemma_map_of_dom(self.entries@, name);
        }
        let n = self.entries.len();
        let mut i: usize = 0;
        while i < n
            invariant
                old(self).wf(),
                m == old(self).view(),
                old(self).view().contains_key(name),
                self.entries@ == old(self).entries@,
                n == self.entries@.len(),
                i <= n,
                forall|j: int| 0 <= j < i ==> #[trigger] self.entries@[j].name != name,
            decreases n - i,
        {
            if self.entries[i].name == name {
                proof {
                    lemma_map_of_at(self.entries@, i as int);
                }
                let ghost old_entries = self.entries@;
                let mut entry = self.entries.remove(i);
                entry.pool.push(kernel);
                let ghost new_entry = Entry { name, pool: entry.pool };
                self.entries.insert(i, entry);
                proof {
                    assert(self.entries@ =~= old_entries.update(i as int, new_entry));
                    lemma_map_of_update(old_entries, i as int, new_entry);
                    assert forall|k: int|
                        0 <= k < self.entries@.len() implies #[trigger] self.entries@[k].name
                        == old_entries[k].name by {}
                    assert forall|x: int, y: int|
                        0 <= x < y < self.entries@.len() implies #[trigger] self.entries@[x].name
                        != #[trigger] self.entries@[y].name by {
                        assert(old_entries[x].name != old_entries[y].name);
                    }
                }
                return ;
            }
            i = i + 1;
        }
        proof {
            lemma_map_of_dom(self.entries@, name);
            assert(false);
        }
    }
}

/// The pooling law: under single-threaded use, a kernel returned under a
/// registered name is the next one the cache hands out for that name, with
/// the cache back in its previous state — no fresh specialization happens in
/// between.
pub proof fn lemma_kernel_round_trip<K>(m: Map<u64, Seq<K>>, name: u64, kernel: K)
    requires
        m.contains_key(name),
    ensures
        spec_get_kernel(spec_set_kernel(m, name, kernel), name).0 == Some(kernel),
        spec_get_kernel(spec_set_kernel(m, name, kernel), name).1 == m,
{
    let m2 = spec_set_kernel(m, name, kernel);
    assert(m2[name].len() > 0);
    assert(m2[name].last() == kernel);
    assert(m2[name].drop_last() =~= m[name]);
    assert(m2.insert(name, m[name]) =~= m);
}

} // verus!
