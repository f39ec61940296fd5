//! The pending-request table: the actor's private map from opaque id to the
//! delivery slot awaiting that response.  Owned by one task; no locking.

use vstd::prelude::*;

verus! {

/// First-match lookup by opaque id.
pub open spec fn spec_table_lookup<T>(tbl: Seq<(usize, T)>, opaque: usize) -> Option<T>
    decreases tbl.len(),
{
    if tbl.len() == 0 {
        None
    } else if tbl[0].0 == opaque {
        Some(tbl[0].1)
    } else {
        spec_table_lookup(tbl.skip(1), opaque)
    }
}

/// The table without the first entry under `opaque`.
pub open spec fn spec_table_remove<T>(tbl: Seq<(usize, T)>, opaque: usize) -> Seq<(usize, T)>
    decreases tbl.len(),
{
    if tbl.len() == 0 {
        tbl
    } else if tbl[0].0 == opaque {
        tbl.skip(1)
    } else {
        seq![tbl[0]] + spec_table_remove(tbl.skip(1), opaque)
    }
}

/// A table whose opaque ids never repeat.
pub open spec fn spec_table_wf<T>(tbl: Seq<(usize, T)>) -> bool {
    forall|i: int, j: int| 0 <= i < j < tbl.len() ==> tbl[i].0 != tbl[j].0
}

/// The actor-owned mapping from in-flight opaque id to delivery slot.
pub struct PendingTable<T> {
    entries: Vec<(usize, T)>,
}

impl<T> View for PendingTable<T> {
    type V = Seq<(usize, T)>;

    closed spec fn view(&self) -> Seq<(usize, T)> {
        self.entries@
    }
}

impl<T> PendingTable<T> {
    /// A table with nothing in flight.
    pub fn new() -> (r: Self)
        ensures
            r@ == Seq::<(usize, T)>::empty(),
    {
        PendingTable { entries: Vec::new() }
    }

    /// How many requests are in flight.
    pub fn len(&self) -> (r: usize)
        ensures
            r == self@.len(),
    {
        self.entries.len()
    }

    /// Registers the slot awaiting the response to `opaque`.  The caller
    /// inserts only after a fully successful write, and ids are unique, so
    /// no entry under this id exists yet.
    pub fn insert(&mut self, opaque: usize, slot: T)
        requires
            spec_table_wf(old(self)@),
            spec_table_lookup(old(self)@, opaque) is None,
        ensures
            final(self)@ == old(self)@ + seq![(opaque, slot)],
            spec_table_wf(final(self)@),
    {
        proof {
            lemma_lookup_none_means_absent(self@, opaque);
        }
        self.entries.push((opaque, slot));
        proof {
            assert(final(self)@ =~= old(self)@ + seq![(opaque, slot)]);
            assert forall|i: int, j: int|
                0 <= i < j < final(self)@.len() implies final(self)@[i].0
                != final(self)@[j].0 by {
                if j == final(self)@.len() - 1 {
                    assert(final(self)@[i] == old(self)@[i]);
                }
            }
        }
    }

    /// Whether a request under `opaque` is in flight.
    pub fn contains(&self, opaque: usize) -> (r: bool)
        ensures
            r == (spec_table_lookup(self@, opaque) is Some),
    {
        let ghost tbl = self@;
        let n: usize = self.entries.len();
        let mut i: usize = 0;
        while i < n
            invariant
                i <= n,
                n == self.entries@.len(),
                tbl == self@,
                forall|k: int| 0 <= k < i ==> tbl[k].0 != opaque,
            decreases n - i,
        {
            if self.entries[i].0 == opaque {
                proof {
                    lemma_lookup_at_found(tbl, opaque, i as int);
                }
                return true;
            }
            i = i + 1;
        }
        proof {
            lemma_absent_lookup_remove(tbl, opaque);
        }
        false
    }

    /// Takes the slot awaiting `opaque`, if a matching request is in
    /// flight; an unmatched id changes nothing.
    pub fn remove(&mut self, opaque: usize) -> (r: Option<T>)
        ensures
            match r {
                Some(slot) => spec_table_lookup(old(self)@, opaque) == Some(slot),
                None => spec_table_lookup(old(self)@, opaque) is None,
            },
            final(self)@ == spec_table_remove(old(self)@, opaque),
            spec_table_wf(old(self)@) ==> spec_table_wf(final(self)@),
            r is None ==> final(self)@ == old(self)@,
    {
        let ghost tbl0 = self@;
        let n: usize = self.entries.len();
        let mut i: usize = 0;
        while i < n
            invariant
                i <= n,
                n == self.entries@.len(),
                *self == *old(self),
                tbl0 == self@,
                forall|k: int| 0 <= k < i ==> tbl0[k].0 != opaque,
            decreases n - i,
        {
            if self.entries[i].0 == opaque {
                let (_, slot) = self.entries.remove(i);
                proof {
                    lemma_remove_at_found(tbl0, opaque, i as int);
                    assert(final(self)@ =~= tbl0.remove(i as int));
                    lemma_lookup_at_found(tbl0, opaque, i as int);
                    if spec_table_wf(tbl0) {
                        lemma_remove_keeps_wf(tbl0, i as int);
                    }
                }
                return Some(slot);
            }
            i = i + 1;
        }
        proof {
            lemma_absent_lookup_remove(tbl0, opaque);
        }
        None
    }
}

proof fn lemma_lookup_none_means_absent<T>(tbl: Seq<(usize, T)>, opaque: usize)
    requires
        spec_table_lookup(tbl, opaque) is None,
    ensures
        forall|i: int| 0 <= i < tbl.len() ==> tbl[i].0 != opaque,
    decreases tbl.len(),
{
    if tbl.len() > 0 {
        lemma_lookup_none_means_absent(tbl.skip(1), opaque);
        assert forall|i: int| 0 <= i < tbl.len() implies tbl[i].0 != opaque by {
            if i > 0 {
                assert(tbl.skip(1)[i - 1] == tbl[i]);
            }
        }
    }
}

proof fn lemma_absent_lookup_remove<T>(tbl: Seq<(usize, T)>, opaque: usize)
    requires
        forall|i: int| 0 <= i < tbl.len() ==> tbl[i].0 != opaque,
    ensures
        spec_table_lookup(tbl, opaque) is None,
        spec_table_remove(tbl, opaque) == tbl,
    decreases tbl.len(),
{
    if tbl.len() > 0 {
        assert(forall|i: int| 0 <= i < tbl.skip(1).len() ==> tbl.skip(1)[i].0 != opaque);
        lemma_absent_lookup_remove(tbl.skip(1), opaque);
        assert(seq![tbl[0]] + tbl.skip(1) =~= tbl);
    }
}

proof fn lemma_lookup_at_found<T>(tbl: Seq<(usize, T)>, opaque: usize, i: int)
    requires
        0 <= i < tbl.len(),
        tbl[i].0 == opaque,
        forall|k: int| 0 <= k < i ==> tbl[k].0 != opaque,
    ensures
        spec_table_lookup(tbl, opaque) == Some(tbl[i].1),
    decreases i,
{
    if i > 0 {
        assert(tbl.skip(1)[i - 1] == tbl[i]);
        lemma_lookup_at_found(tbl.skip(1), opaque, i - 1);
    }
}

proof fn lemma_remove_at_found<T>(tbl: Seq<(usize, T)>, opaque: usize, i: int)
    requires
        0 <= i < tbl.len(),
        tbl[i].0 == opaque,
        forall|k: int| 0 <= k < i ==> tbl[k].0 != opaque,
    ensures
        spec_table_remove(tbl, opaque) == tbl.remove(i),
    decreases i,
{
    if i == 0 {
        assert(spec_table_remove(tbl, opaque) == tbl.skip(1));
        assert(tbl.skip(1) =~= tbl.remove(0));
    } else {
        assert(tbl.skip(1)[i - 1] == tbl[i]);
        lemma_remove_at_found(tbl.skip(1), opaque, i - 1);
        assert(seq![tbl[0]] + tbl.skip(1).remove(i - 1) =~= tbl.remove(i));
    }
}

proof fn lemma_remove_keeps_wf<T>(tbl: Seq<(usize, T)>, i: int)
    requires
        0 <= i < tbl.len(),
        spec_table_wf(tbl),
    ensures
        spec_table_wf(tbl.remove(i)),
{
    let r = tbl.remove(i);
    assert forall|a: int, b: int| 0 <= a < b < r.len() implies r[a].0 != r[b].0 by {
        let a0 = if a < i {
            a
        } else {
            a + 1
        };
        let b0 = if b < i {
            b
        } else {
            b + 1
        };
        assert(r[a] == tbl[a0] && r[b] == tbl[b0]);
    }
}

} // verus!
