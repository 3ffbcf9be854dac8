//! Out-of-order to in-order reassembly by unit id.
use vstd::prelude::*;
use crate::cliff::strictly_increasing;

verus! {

/// Holds units that arrived ahead of their turn and releases them in id
/// order.
pub struct ReorderBuffer<T> {
    /// Units waiting, by strictly increasing id, none below `next_id`.
    pub pending: Vec<(usize, T)>,
    /// The id expected next.
    pub next_id: usize,
    /// Every id released so far, in order.
    pub emitted: Ghost<Seq<usize>>,
}

pub open spec fn ids_of<T>(s: Seq<(usize, T)>) -> Seq<usize> {
    s.map_values(|p: (usize, T)| p.0)
}

impl<T> ReorderBuffer<T> {
    pub open spec fn wf(&self) -> bool {
        &&& strictly_increasing(ids_of(self.pending@))
        &&& forall|k: int| 0 <= k < self.pending@.len() ==> self.next_id <= (#[trigger] self.pending@[k]).0 < usize::MAX
        &&& strictly_increasing(self.emitted@)
        &&& forall|k: int| 0 <= k < self.emitted@.len() ==> #[trigger] self.emitted@[k] < self.next_id
    }

    /// An empty buffer expecting id 0 first.
    pub fn new() -> (r: Self)
        ensures
            r.wf(),
            r.pending@.len() == 0,
            r.next_id == 0,
            r.emitted@.len() == 0,
    {
        ReorderBuffer { pending: Vec::new(), next_id: 0, emitted: Ghost(Seq::empty()) }
    }

    pub fn is_empty(&self) -> (r: bool)
        ensures
            r == (self.pending@.len() == 0),
    {
        self.pending.len() == 0
    }

    /// Stores a unit. A unit whose id was already released (or is the
    /// largest `usize`) is refused; one whose id is waiting replaces it.
    pub fn insert(&mut self, id: usize, item: T) -> (accepted: bool)
        requires
            old(self).wf(),
        ensures
            final(self).wf(),
            accepted == (old(self).next_id <= id < usize::MAX),
            final(self).next_id == old(self).next_id,
            final(self).emitted@ == old(self).emitted@,
            accepted ==> ids_of(final(self).pending@).to_set() == ids_of(old(self).pending@).to_set().insert(id),
            !accepted ==> final(self).pending@ == old(self).pending@,
            accepted ==> exists|k: int| 0 <= k < final(self).pending@.len() && #[trigger] final(self).pending@[k] == (id, item),
            forall|k: int|
                0 <= k < final(self).pending@.len() ==> #[trigger] final(self).pending@[k] == (id, item)
                    || old(self).pending@.contains(final(self).pending@[k]),
    {
        if id < self.next_id || id == usize::MAX {
            return false;
        }
        let ghost old_pending = self.pending@;
        let mut j: usize = 0;
        while j < self.pending.len() && self.pending[j].0 < id
            invariant
                j <= self.pending@.len(),
                self.pending@ == old_pending,
                forall|k: int| 0 <= k < j ==> (#[trigger] self.pending@[k]).0 < id,
            decreases self.pending@.len() - j,
        {
            j = j + 1;
        }
        if j < self.pending.len() && self.pending[j].0 == id {
            self.pending.set(j, (id, item));
            proof {
                let ps = self.pending@;
                assert(ps =~= old_pending.update(j as int, (id, item)));
                assert(ids_of(ps) =~= ids_of(old_pending));
                assert forall|k: int| 0 <= k < ps.len() implies self.next_id <= (#[trigger] ps[k]).0 < usize::MAX by {
                    if k != j {
                        assert(ps[k] == old_pending[k]);
                    }
                }
                assert forall|k: int| 0 <= k < ps.len() implies #[trigger] ps[k] == (id, item) || old_pending.contains(ps[k]) by {
                    if k != j {
                        assert(ps[k] == old_pending[k]);
                    }
                }
                assert(ps[j as int] == (id, item));
                assert(ids_of(old_pending)[j as int] == id);
                assert(ids_of(ps).to_set() =~= ids_of(old_pending).to_set().insert(id));
            }
        } else {
            self.pending.insert(j, (id, item));
            proof {
                let ps = self.pending@;
                assert(ps =~= old_pending.insert(j as int, (id, item)));
                lemma_insert_keeps_order(old_pending, j as int, (id, item));
                assert forall|k: int| 0 <= k < ps.len() implies self.next_id <= (#[trigger] ps[k]).0 < usize::MAX by {
                    if k < j {
                        assert(ps[k] == old_pending[k]);
                    } else if k > j {
                        assert(ps[k] == old_pending[k - 1]);
                    }
                }
                assert forall|k: int| 0 <= k < ps.len() implies #[trigger] ps[k] == (id, item) || old_pending.contains(ps[k]) by {
                    if k < j {
                        assert(ps[k] == old_pending[k]);
                    } else if k > j {
                        assert(ps[k] == old_pending[k - 1]);
                    }
                }
                assert(ps[j as int] == (id, item));
                assert(ids_of(ps) =~= ids_of(old_pending).insert(j as int, id));
                assert(ids_of(ps).to_set() =~= ids_of(old_pending).to_set().insert(id)) by {
                    assert forall|v: usize| #[trigger] ids_of(ps).to_set().contains(v) <==> ids_of(old_pending).to_set().insert(id).contains(v) by {
                        let o = ids_of(old_pending);
                        let n = ids_of(ps);
                        if n.to_set().contains(v) {
                            let k = choose|k: int| 0 <= k < n.len() && n[k] == v;
                            if k < j {
                                assert(o[k] == v);
                            } else if k > j {
                                assert(o[k - 1] == v);
                            }
                        }
                        if o.to_set().insert(id).contains(v) {
                            if v == id {
                                assert(n[j as int] == v);
                            } else {
                                let k = choose|k: int| 0 <= k < o.len() && o[k] == v;
                                if k < j {
                                    assert(n[k] == v);
                                } else {
                                    assert(n[k + 1] == v);
                                }
                            }
                        }
                    }
                }
            }
        }
        true
    }

    /// Releases the unit whose id is the one expected next, if it arrived.
    pub fn pop_ready(&mut self) -> (r: Option<(usize, T)>)
        requires
            old(self).wf(),
        ensures
            final(self).wf(),
            old(self).pending@.len() > 0 && old(self).pending@[0].0 == old(self).next_id ==> {
                &&& r == Some(old(self).pending@[0])
                &&& final(self).pending@ == old(self).pending@.subrange(1, old(self).pending@.len() as int)
                &&& final(self).next_id == old(self).next_id + 1
                &&& final(self).emitted@ == old(self).emitted@.push(old(self).next_id)
            },
            !(old(self).pending@.len() > 0 && old(self).pending@[0].0 == old(self).next_id) ==> {
                &&& r is None
                &&& final(self).pending@ == old(self).pending@
                &&& final(self).next_id == old(self).next_id
                &&& final(self).emitted@ == old(self).emitted@
            },
    {
        if self.pending.len() > 0 && self.pending[0].0 == self.next_id {
            self.pop_lowest()
        } else {
            None
        }
    }

    /// Releases the waiting unit of lowest id even when ids before it never
    /// arrived (used at end of stream); the gap is skipped.
    pub fn pop_lowest(&mut self) -> (r: Option<(usize, T)>)
        requires
            old(self).wf(),
        ensures
            final(self).wf(),
            old(self).pending@.len() > 0 ==> {
                &&& r == Some(old(self).pending@[0])
                &&& final(self).pending@ == old(self).pending@.subrange(1, old(self).pending@.len() as int)
                &&& final(self).next_id == old(self).pending@[0].0 + 1
                &&& final(self).emitted@ == old(self).emitted@.push(old(self).pending@[0].0)
            },
            old(self).pending@.len() == 0 ==> r is None && final(self).pending@ == old(self).pending@
                && final(self).next_id == old(self).next_id && final(self).emitted@ == old(self).emitted@,
    {
        if self.pending.len() == 0 {
            return None;
        }
        let ghost old_pending = self.pending@;
        let first = self.pending.remove(0);
        let id = first.0;
        self.next_id = id + 1;
        self.emitted = Ghost(self.emitted@.push(id));
        proof {
            let ps = self.pending@;
            let old_ids = ids_of(old_pending);
            assert forall|a: int, b: int| 0 <= a < b < ids_of(ps).len() implies ids_of(ps)[a] < ids_of(ps)[b] by {
                assert(ps[a] == old_pending[a + 1] && ps[b] == old_pending[b + 1]);
                assert(old_ids[a + 1] < old_ids[b + 1]);
            }
            assert forall|k: int| 0 <= k < ps.len() implies self.next_id <= (#[trigger] ps[k]).0 < usize::MAX by {
                assert(ps[k] == old_pending[k + 1]);
                assert(old_ids[0] < old_ids[k + 1]);
            }
            let e = self.emitted@;
            assert forall|a: int, b: int| 0 <= a < b < e.len() implies e[a] < e[b] by {
                if b < e.len() - 1 {
                    assert(e[a] == old(self).emitted@[a] && e[b] == old(self).emitted@[b]);
                } else {
                    assert(e[a] == old(self).emitted@[a]);
                }
            }
        }
        Some(first)
    }
}

proof fn lemma_insert_keeps_order<T>(s: Seq<(usize, T)>, j: int, x: (usize, T))
    requires
        strictly_increasing(ids_of(s)),
        0 <= j <= s.len(),
        forall|k: int| 0 <= k < j ==> (#[trigger] s[k]).0 < x.0,
        j < s.len() ==> s[j].0 > x.0,
    ensures
        strictly_increasing(ids_of(s.insert(j, x))),
{
    let n = s.insert(j, x);
    let o = ids_of(s);
    assert forall|a: int, b: int| 0 <= a < b < ids_of(n).len() implies ids_of(n)[a] < ids_of(n)[b] by {
        let ia = if a < j { a } else { a - 1 };
        let ib = if b < j { b } else { b - 1 };
        if a != j && b != j {
            assert(n[a] == s[ia] && n[b] == s[ib]);
            assert(o[ia] < o[ib]);
        } else if a == j {
            assert(n[b] == s[ib]);
            if ib > j {
                assert(o[j] < o[ib]);
            }
        } else {
            assert(n[a] == s[ia]);
        }
    }
}

/// Units leave the buffer in strictly increasing id order, never twice.
pub proof fn lemma_released_in_order<T>(b: &ReorderBuffer<T>)
    requires
        b.wf(),
    ensures
        forall|i: int, j: int| 0 <= i < j < b.emitted@.len() ==> b.emitted@[i] < b.emitted@[j],
{
}

} // verus!
