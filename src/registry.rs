use vstd::prelude::*;

use crate::session::SessionError;

verus! {

/// The handle stored under `id`, if any.
pub open spec fn lookup<H>(entries: Seq<(u64, H)>, id: u64) -> Option<H>
    decreases entries.len(),
{
    if entries.len() == 0 {
        None
    } else if entries[0].0 == id {
        Some(entries[0].1)
    } else {
        lookup(entries.drop_first(), id)
    }
}

/// The entries with the one under `id` taken out.
pub open spec fn without<H>(entries: Seq<(u64, H)>, id: u64) -> Seq<(u64, H)>
    decreases entries.len(),
{
    if entries.len() == 0 {
        seq![]
    } else if entries[0].0 == id {
        without(entries.drop_first(), id)
    } else {
        seq![entries[0]] + without(entries.drop_first(), id)
    }
}

/// Ids strictly ascending, hence unique.
pub open spec fn ascending<H>(entries: Seq<(u64, H)>) -> bool {
    forall|i: int, j: int| 0 <= i < j < entries.len() ==> entries[i].0 < entries[j].0
}

/// The ids of the entries, in order.
pub open spec fn ids_of<H>(entries: Seq<(u64, H)>) -> Seq<u64> {
    entries.map_values(|e: (u64, H)| e.0)
}

/// A map from session id to the handle of that session, the one place that says
/// whether a session still exists. Ids come from a counter and are never reused.
pub struct Registry<H> {
    entries: Vec<(u64, H)>,
    last_id: u64,
}

impl<H> Registry<H> {
    /// The stored entries, ascending by id.
    pub closed spec fn entries(&self) -> Seq<(u64, H)> {
        self.entries@
    }

    /// The last id handed out (0 before the first).
    pub closed spec fn last_id(&self) -> u64 {
        self.last_id
    }

    pub open spec fn wf(&self) -> bool {
        &&& ascending(self.entries())
        &&& forall|i: int| 0 <= i < self.entries().len() ==> self.entries()[i].0 <= self.last_id()
    }

    pub fn new() -> (r: Self)
        ensures
            r.wf(),
            r.entries() == Seq::<(u64, H)>::empty(),
            r.last_id() == 0,
    {
        Registry { entries: Vec::new(), last_id: 0 }
    }

    /// Hands out a fresh id, greater than every id handed out before; `None` once
    /// the counter is spent.
    pub fn next_id(&mut self) -> (r: Option<u64>)
        requires
            old(self).wf(),
        ensures
            final(self).wf(),
            final(self).entries() == old(self).entries(),
            old(self).last_id() == u64::MAX ==> r is None && final(self).last_id() == u64::MAX,
            old(self).last_id() < u64::MAX ==> r == Some((old(self).last_id() + 1) as u64)
                && final(self).last_id() == old(self).last_id() + 1,
    {
        if self.last_id == u64::MAX {
            None
        } else {
            self.last_id = self.last_id + 1;
            Some(self.last_id)
        }
    }

    /// Stores `handle` under `id`. Returns false, and changes nothing, where `id` is
    /// already taken.
    pub fn insert(&mut self, id: u64, handle: H) -> (inserted: bool)
        requires
            old(self).wf(),
            id <= old(self).last_id(),
        ensures
            final(self).wf(),
            final(self).last_id() == old(self).last_id(),
            inserted == (lookup(old(self).entries(), id) is None),
            inserted ==> lookup(final(self).entries(), id) == Some(handle) && without(
                final(self).entries(),
                id,
            ) == old(self).entries(),
            !inserted ==> final(self).entries() == old(self).entries(),
    {
        let ghost old_entries = self.entries@;
        let mut pos: usize = 0;
        while pos < self.entries.len() && self.entries[pos].0 < id
            invariant
                self.entries@ == old_entries,
                pos <= self.entries@.len(),
                forall|i: int| 0 <= i < pos ==> self.entries@[i].0 < id,
            decreases self.entries@.len() - pos,
        {
            pos = pos + 1;
        }
        proof {
            lemma_lookup_absent_below(old_entries, id, pos as int);
        }
        if pos < self.entries.len() && self.entries[pos].0 == id {
            proof {
                lemma_lookup_at(old_entries, pos as int);
            }
            return false;
        }
        self.entries.insert(pos, (id, handle));
        proof {
            let e = self.entries@;
            assert(e == old_entries.insert(pos as int, (id, handle)));
            assert forall|i: int, j: int| 0 <= i < j < e.len() implies e[i].0 < e[j].0 by {
                if j < pos {
                } else if i < pos && j == pos {
                } else if i < pos {
                    assert(e[j] == old_entries[j - 1]);
                } else if i == pos {
                    assert(e[j] == old_entries[j - 1]);
                } else {
                    assert(e[i] == old_entries[i - 1]);
                    assert(e[j] == old_entries[j - 1]);
                }
            }
            lemma_lookup_at(e, pos as int);
            lemma_without_insert(old_entries, pos as int, id, handle);
        }
        true
    }

    /// The handle stored under `id`.
    pub fn get(&self, id: u64) -> (r: Option<&H>)
        requires
            self.wf(),
        ensures
            r == match lookup(self.entries(), id) {
                Some(h) => Some(&h),
                None => None::<&H>,
            },
    {
        match self.position(id) {
            Some(i) => Some(&self.entries[i].1),
            None => None,
        }
    }

    /// The handle stored under `id`, or `NotFound`.
    pub fn require(&self, id: u64) -> (r: Result<&H, SessionError>)
        requires
            self.wf(),
        ensures
            match lookup(self.entries(), id) {
                Some(h) => r == Ok::<&H, SessionError>(&h),
                None => r == Err::<&H, SessionError>(SessionError::NotFound),
            },
    {
        match self.get(id) {
            Some(h) => Ok(h),
            None => Err(SessionError::NotFound),
        }
    }

    /// Takes the entry under `id` out and returns its handle; where there is none,
    /// returns `None` and changes nothing.
    pub fn remove(&mut self, id: u64) -> (r: Option<H>)
        requires
            old(self).wf(),
        ensures
            final(self).wf(),
            final(self).last_id() == old(self).last_id(),
            r == lookup(old(self).entries(), id),
            final(self).entries() == without(old(self).entries(), id),
    {
        let ghost old_entries = self.entries@;
        match self.position(id) {
            Some(i) => {
                let (_, h) = self.entries.remove(i);
                proof {
                    lemma_without_at(old_entries, i as int);
                    assert(self.entries@ == old_entries.remove(i as int));
                    let e = self.entries@;
                    assert forall|a: int, b: int| 0 <= a < b < e.len() implies e[a].0 < e[b].0 by {
                        if b < i {
                        } else if a < i {
                            assert(e[b] == old_entries[b + 1]);
                        } else {
                            assert(e[a] == old_entries[a + 1]);
                            assert(e[b] == old_entries[b + 1]);
                        }
                    }
                }
                Some(h)
            },
            None => {
                proof {
                    lemma_without_absent(old_entries, id);
                }
                None
            },
        }
    }

    /// The stored ids, ascending.
    pub fn ids(&self) -> (r: Vec<u64>)
        requires
            self.wf(),
        ensures
            r@ == ids_of(self.entries()),
    {
        let mut r: Vec<u64> = Vec::new();
        let mut i: usize = 0;
        while i < self.entries.len()
            invariant
                i <= self.entries@.len(),
                r@ == ids_of(self.entries@.subrange(0, i as int)),
            decreases self.entries@.len() - i,
        {
            r.push(self.entries[i].0);
            i = i + 1;
            assert(r@ =~= ids_of(self.entries@.subrange(0, i as int)));
        }
        assert(self.entries@.subrange(0, i as int) =~= self.entries@);
        r
    }

    /// The handles, ascending by id.
    pub fn handles(&self) -> (r: Vec<&H>)
        requires
            self.wf(),
        ensures
            r@.len() == self.entries().len(),
            forall|i: int| 0 <= i < r@.len() ==> *r@[i] == self.entries()[i].1,
    {
        let mut r: Vec<&H> = Vec::new();
        let mut i: usize = 0;
        while i < self.entries.len()
            invariant
                i <= self.entries@.len(),
                r@.len() == i,
                forall|k: int| 0 <= k < i ==> *r@[k] == self.entries@[k].1,
            decreases self.entries@.len() - i,
        {
            r.push(&self.entries[i].1);
            i = i + 1;
        }
        r
    }

    fn position(&self, id: u64) -> (r: Option<usize>)
        requires
            self.wf(),
        ensures
            match r {
                Some(i) => i < self.entries@.len() && self.entries@[i as int].0 == id && lookup(
                    self.entries@,
                    id,
                ) == Some(self.entries@[i as int].1),
                None => lookup(self.entries@, id) is None,
            },
    {
        let mut i: usize = 0;
        while i < self.entries.len()
            invariant
                i <= self.entries@.len(),
                ascending(self.entries@),
                forall|k: int| 0 <= k < i ==> self.entries@[k].0 != id,
            decreases self.entries@.len() - i,
        {
            if self.entries[i].0 == id {
                proof {
                    lemma_lookup_at(self.entries@, i as int);
                }
                return Some(i);
            }
            i = i + 1;
        }
        proof {
            lemma_lookup_absent(self.entries@, id);
        }
        None
    }
}

proof fn lemma_lookup_absent<H>(entries: Seq<(u64, H)>, id: u64)
    requires
        forall|k: int| 0 <= k < entries.len() ==> entries[k].0 != id,
    ensures
        lookup(entries, id) is None,
    decreases entries.len(),
{
    if entries.len() > 0 {
        lemma_lookup_absent(entries.drop_first(), id);
    }
}

proof fn lemma_lookup_absent_below<H>(entries: Seq<(u64, H)>, id: u64, pos: int)
    requires
        ascending(entries),
        0 <= pos <= entries.len(),
        forall|i: int| 0 <= i < pos ==> entries[i].0 < id,
        pos < entries.len() ==> entries[pos].0 >= id,
    ensures
        (pos == entries.len() || entries[pos].0 != id) ==> lookup(entries, id) is None,
{
    if pos == entries.len() || entries[pos].0 != id {
        assert forall|k: int| 0 <= k < entries.len() implies entries[k].0 != id by {
            if k > pos {
                assert(entries[pos].0 < entries[k].0);
            }
        }
        lemma_lookup_absent(entries, id);
    }
}

proof fn lemma_lookup_at<H>(entries: Seq<(u64, H)>, i: int)
    requires
        ascending(entries),
        0 <= i < entries.len(),
    ensures
        lookup(entries, entries[i].0) == Some(entries[i].1),
    decreases i,
{
    if i > 0 {
        assert(entries[0].0 < entries[i].0);
        let rest = entries.drop_first();
        assert(rest[i - 1] == entries[i]);
        lemma_lookup_at(rest, i - 1);
    }
}

proof fn lemma_without_absent<H>(entries: Seq<(u64, H)>, id: u64)
    requires
        lookup(entries, id) is None,
    ensures
        without(entries, id) == entries,
    decreases entries.len(),
{
    if entries.len() > 0 {
        lemma_without_absent(entries.drop_first(), id);
        assert(seq![entries[0]] + entries.drop_first() =~= entries);
    }
}

proof fn lemma_without_at<H>(entries: Seq<(u64, H)>, i: int)
    requires
        ascending(entries),
        0 <= i < entries.len(),
    ensures
        without(entries, entries[i].0) == entries.remove(i),
    decreases i,
{
    let id = entries[i].0;
    let rest = entries.drop_first();
    if i == 0 {
        assert forall|k: int| 0 <= k < rest.len() implies rest[k].0 != id by {
            assert(entries[0].0 < entries[k + 1].0);
        }
        lemma_lookup_absent(rest, id);
        lemma_without_absent(rest, id);
        assert(entries.remove(0) =~= rest);
    } else {
        assert(entries[0].0 < entries[i].0);
        assert(rest[i - 1] == entries[i]);
        lemma_without_at(rest, i - 1);
        assert(entries.remove(i) =~= seq![entries[0]] + rest.remove(i - 1));
    }
}

proof fn lemma_without_insert<H>(entries: Seq<(u64, H)>, pos: int, id: u64, handle: H)
    requires
        ascending(entries.insert(pos, (id, handle))),
        0 <= pos <= entries.len(),
    ensures
        without(entries.insert(pos, (id, handle)), id) == entries,
{
    let e = entries.insert(pos, (id, handle));
    lemma_without_at(e, pos);
    assert(e.remove(pos) =~= entries);
}

/// Closing or stopping a session that is not in the registry, because it never was
/// or because it was removed already, finds nothing and leaves the registry as it is.
pub proof fn lemma_remove_absent_is_noop<H>(entries: Seq<(u64, H)>, id: u64)
    requires
        lookup(entries, id) is None,
    ensures
        without(entries, id) == entries,
{
    lemma_without_absent(entries, id);
}

/// Once an id is removed, a second removal of it finds nothing and changes nothing.
/// With `remove` returning the handle exactly when the id was present, of two
/// racing cleanups of one session only the first to remove it gets the handle, so
/// the kill and reap that follow a successful removal happen exactly once.
pub proof fn lemma_removal_exactly_once<H>(entries: Seq<(u64, H)>, id: u64)
    ensures
        lookup(without(entries, id), id) is None,
        without(without(entries, id), id) == without(entries, id),
{
    lemma_lookup_without(entries, id);
    lemma_without_absent(without(entries, id), id);
}

proof fn lemma_lookup_without<H>(entries: Seq<(u64, H)>, id: u64)
    ensures
        lookup(without(entries, id), id) is None,
    decreases entries.len(),
{
    if entries.len() > 0 {
        lemma_lookup_without(entries.drop_first(), id);
        if entries[0].0 != id {
            let w = without(entries, id);
            assert(w == seq![entries[0]] + without(entries.drop_first(), id));
            assert(w.drop_first() =~= without(entries.drop_first(), id));
        }
    }
}

} // verus!
