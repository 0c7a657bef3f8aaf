//! In-memory model of the journaled backing store.
//!
//! The real store is an external collaborator; the cache only needs a
//! key-value column with a write batch and an era commit that applies it.
//! The model keeps the column as an association list with unique keys and
//! exposes its contents as a map of byte strings.

use vstd::prelude::*;

verus! {

/// The view of a list of key-value pairs as byte strings.
pub open spec fn ops_view(ops: Seq<(Vec<u8>, Vec<u8>)>) -> Seq<(Seq<u8>, Seq<u8>)> {
    Seq::new(ops.len(), |i: int| (ops[i].0@, ops[i].1@))
}

/// The map described by an association list; later entries win.
pub open spec fn assoc_map(es: Seq<(Seq<u8>, Seq<u8>)>) -> Map<Seq<u8>, Seq<u8>>
    decreases es.len(),
{
    if es.len() == 0 {
        Map::empty()
    } else {
        assoc_map(es.drop_last()).insert(es.last().0, es.last().1)
    }
}

/// No two entries share a key.
pub open spec fn keys_unique(es: Seq<(Seq<u8>, Seq<u8>)>) -> bool {
    forall|i: int, j: int| 0 <= i < j < es.len() ==> (#[trigger] es[i]).0 != (#[trigger] es[j]).0
}

/// The map of an association list with unique keys: its domain is exactly the
/// keys listed, every entry is found at its value, and the sizes agree.
pub proof fn lemma_assoc_props(es: Seq<(Seq<u8>, Seq<u8>)>)
    requires
        keys_unique(es),
    ensures
        forall|k: Seq<u8>|
            assoc_map(es).dom().contains(k) <==> exists|i: int|
                0 <= i < es.len() && (#[trigger] es[i]).0 == k,
        forall|i: int|
            0 <= i < es.len() ==> assoc_map(es).dom().contains((#[trigger] es[i]).0) && assoc_map(
                es,
            )[es[i].0] == es[i].1,
        assoc_map(es).dom().finite(),
        assoc_map(es).len() == es.len(),
    decreases es.len(),
{
    if es.len() == 0 {
    } else {
        let pre = es.drop_last();
        assert(keys_unique(pre)) by {
            assert forall|i: int, j: int| 0 <= i < j < pre.len() implies (#[trigger] pre[i]).0 != (
            #[trigger] pre[j]).0 by {
                assert(pre[i] == es[i] && pre[j] == es[j]);
            }
        }
        lemma_assoc_props(pre);
        let k = es.last().0;
        assert(!assoc_map(pre).dom().contains(k)) by {
            if assoc_map(pre).dom().contains(k) {
                let i = choose|i: int| 0 <= i < pre.len() && (#[trigger] pre[i]).0 == k;
                assert(es[i].0 == es[es.len() - 1].0);
            }
        }
        assert forall|i: int| 0 <= i < es.len() implies assoc_map(es).dom().contains(
            (#[trigger] es[i]).0,
        ) && assoc_map(es)[es[i].0] == es[i].1 by {
            if i < es.len() - 1 {
                assert(pre[i] == es[i]);
                assert(es[i].0 != k);
            }
        }
        assert forall|k2: Seq<u8>| assoc_map(es).dom().contains(k2) implies exists|i: int|
            0 <= i < es.len() && (#[trigger] es[i]).0 == k2 by {
            if k2 == k {
                assert(es[es.len() - 1].0 == k2);
            } else {
                let i = choose|i: int| 0 <= i < pre.len() && (#[trigger] pre[i]).0 == k2;
                assert(es[i].0 == k2);
            }
        }
    }
}

/// Applying a list of puts to a map, in order.
pub open spec fn apply_puts(
    m: Map<Seq<u8>, Seq<u8>>,
    puts: Seq<(Seq<u8>, Seq<u8>)>,
) -> Map<Seq<u8>, Seq<u8>>
    decreases puts.len(),
{
    if puts.len() == 0 {
        m
    } else {
        apply_puts(m.insert(puts[0].0, puts[0].1), puts.drop_first())
    }
}

/// Whether the two byte vectors hold the same bytes.
pub(crate) fn bytes_eq(a: &Vec<u8>, b: &Vec<u8>) -> (r: bool)
    ensures
        r == (a@ == b@),
{
    if a.len() != b.len() {
        proof {
            assert(a@ != b@) by {
                if a@ == b@ {
                    assert(a@.len() == b@.len());
                }
            }
        }
        return false;
    }
    let mut i: usize = 0;
    while i < a.len()
        invariant
            a@.len() == b@.len(),
            0 <= i <= a@.len(),
            forall|j: int| 0 <= j < i ==> a@[j] == b@[j],
        decreases a@.len() - i,
    {
        if a[i] != b[i] {
            proof {
                assert(a@ != b@) by {
                    if a@ == b@ {
                        assert(a@[i as int] == b@[i as int]);
                    }
                }
            }
            return false;
        }
        i += 1;
    }
    proof {
        assert(a@ =~= b@);
    }
    true
}

/// A fresh copy of the bytes.
pub(crate) fn copy_bytes(v: &Vec<u8>) -> (r: Vec<u8>)
    ensures
        r@ == v@,
{
    let mut r: Vec<u8> = Vec::new();
    let mut i: usize = 0;
    while i < v.len()
        invariant
            0 <= i <= v@.len(),
            r@ =~= v@.subrange(0, i as int),
        decreases v@.len() - i,
    {
        r.push(v[i]);
        i += 1;
        proof {
            assert(r@ =~= v@.subrange(0, i as int));
        }
    }
    proof {
        assert(v@.subrange(0, v@.len() as int) =~= v@);
    }
    r
}

/// A write batch: an ordered list of key-value puts.
pub struct WriteBatch {
    ops: Vec<(Vec<u8>, Vec<u8>)>,
}

impl WriteBatch {
    /// The puts queued in the batch, in order.
    pub closed spec fn puts(self) -> Seq<(Seq<u8>, Seq<u8>)> {
        ops_view(self.ops@)
    }

    /// An empty batch.
    pub fn new() -> (r: WriteBatch)
        ensures
            r.puts() == Seq::<(Seq<u8>, Seq<u8>)>::empty(),
    {
        let r = WriteBatch { ops: Vec::new() };
        proof {
            assert(r.puts() =~~= Seq::<(Seq<u8>, Seq<u8>)>::empty());
        }
        r
    }

    /// Queue a put.
    pub fn put(&mut self, key: Vec<u8>, value: Vec<u8>)
        ensures
            final(self).puts() == old(self).puts().push((key@, value@)),
    {
        let ghost k = key@;
        let ghost v = value@;
        self.ops.push((key, value));
        proof {
            assert(self.puts() =~~= old(self).puts().push((k, v)));
        }
    }

    /// Number of queued puts.
    pub fn len(&self) -> (r: usize)
        ensures
            r == self.puts().len(),
    {
        self.ops.len()
    }
}

/// The in-memory model of the backing store's Bloom column, together with
/// the informational bits the cache surfaces.
pub struct BackingStore {
    entries: Vec<(Vec<u8>, Vec<u8>)>,
    pruned: bool,
}

impl BackingStore {
    /// The key-value contents of the column.
    pub closed spec fn contents(self) -> Map<Seq<u8>, Seq<u8>> {
        assoc_map(ops_view(self.entries@))
    }

    /// The store's representation keeps one entry per key.
    pub closed spec fn wf(self) -> bool {
        keys_unique(ops_view(self.entries@))
    }

    /// Whether pruning is enabled.
    pub closed spec fn pruned_flag(self) -> bool {
        self.pruned
    }

    /// An empty store.
    pub fn new(pruned: bool) -> (r: BackingStore)
        ensures
            r.wf(),
            r.contents() == Map::<Seq<u8>, Seq<u8>>::empty(),
            r.pruned_flag() == pruned,
    {
        let r = BackingStore { entries: Vec::new(), pruned };
        proof {
            assert(ops_view(r.entries@) =~~= Seq::<(Seq<u8>, Seq<u8>)>::empty());
        }
        r
    }

    /// Look a key up in the column.
    pub fn get(&self, key: &Vec<u8>) -> (r: Option<Vec<u8>>)
        requires
            self.wf(),
        ensures
            r is Some ==> self.contents().dom().contains(key@) && r.unwrap()@
                == self.contents()[key@],
            r is None ==> !self.contents().dom().contains(key@),
    {
        let mut i: usize = 0;
        while i < self.entries.len()
            invariant
                self.wf(),
                0 <= i <= self.entries@.len(),
                forall|j: int| 0 <= j < i ==> (#[trigger] ops_view(self.entries@)[j]).0 != key@,
        decreases self.entries@.len() - i,
        {
            proof {
                assert(ops_view(self.entries@)[i as int] == (
                    self.entries@[i as int].0@,
                    self.entries@[i as int].1@,
                ));
            }
            if bytes_eq(&self.entries[i].0, key) {
                proof {
                    lemma_assoc_props(ops_view(self.entries@));
                }
                return Some(copy_bytes(&self.entries[i].1));
            }
            i += 1;
        }
        proof {
            lemma_assoc_props(ops_view(self.entries@));
            if self.contents().dom().contains(key@) {
                let j = choose|j: int|
                    0 <= j < ops_view(self.entries@).len() && (#[trigger] ops_view(
                        self.entries@,
                    )[j]).0 == key@;
                assert(ops_view(self.entries@)[j].0 != key@);
            }
        }
        None
    }

    /// Whether pruning is enabled on the store.
    pub fn is_pruned(&self) -> (r: bool)
        ensures
            r == self.pruned_flag(),
    {
        self.pruned
    }

    /// Number of entries held, as a size measure.
    pub fn mem_used(&self) -> (r: usize)
        requires
            self.wf(),
        ensures
            r == self.contents().len(),
    {
        proof {
            lemma_assoc_props(ops_view(self.entries@));
        }
        self.entries.len()
    }

    /// An independent copy of the store.
    pub fn duplicate(&self) -> (r: BackingStore)
        ensures
            r.wf() == self.wf(),
            r.contents() == self.contents(),
            r.pruned_flag() == self.pruned_flag(),
    {
        let mut es: Vec<(Vec<u8>, Vec<u8>)> = Vec::new();
        let mut i: usize = 0;
        while i < self.entries.len()
            invariant
                0 <= i <= self.entries@.len(),
                es@.len() == i,
                forall|j: int|
                    0 <= j < i ==> (#[trigger] es@[j]).0@ == self.entries@[j].0@ && es@[j].1@
                        == self.entries@[j].1@,
            decreases self.entries@.len() - i,
        {
            let k = copy_bytes(&self.entries[i].0);
            let v = copy_bytes(&self.entries[i].1);
            es.push((k, v));
            i += 1;
        }
        let r = BackingStore { entries: es, pruned: self.pruned };
        proof {
            assert forall|j: int| 0 <= j < r.entries@.len() implies ops_view(r.entries@)[j]
                == ops_view(self.entries@)[j] by {
                assert(ops_view(r.entries@)[j] == (r.entries@[j].0@, r.entries@[j].1@));
                assert(ops_view(self.entries@)[j] == (self.entries@[j].0@, self.entries@[j].1@));
            }
            assert(ops_view(r.entries@) =~~= ops_view(self.entries@));
        }
        r
    }

    /// Insert or replace one entry.
    fn put_entry(&mut self, key: Vec<u8>, value: Vec<u8>)
        requires
            old(self).wf(),
        ensures
            final(self).wf(),
            final(self).contents() == old(self).contents().insert(key@, value@),
            final(self).pruned_flag() == old(self).pruned_flag(),
    {
        let ghost k = key@;
        let ghost v = value@;
        let ghost es0 = ops_view(self.entries@);
        let mut i: usize = 0;
        while i < self.entries.len()
            invariant
                self.wf(),
                self.pruned_flag() == old(self).pruned_flag(),
                es0 == ops_view(self.entries@),
                es0 == ops_view(old(self).entries@),
                old(self).contents() == assoc_map(es0),
                0 <= i <= self.entries@.len(),
                forall|j: int| 0 <= j < i ==> (#[trigger] ops_view(self.entries@)[j]).0 != k,
                key@ == k,
                value@ == v,
            decreases self.entries@.len() - i,
        {
            proof {
                assert(ops_view(self.entries@)[i as int] == (
                    self.entries@[i as int].0@,
                    self.entries@[i as int].1@,
                ));
            }
            if bytes_eq(&self.entries[i].0, &key) {
                let _ = self.entries.remove(i);
                self.entries.insert(i, (key, value));
                proof {
                    assert(ops_view(self.entries@) =~~= es0.update(i as int, (k, v)));
                    assert(es0[i as int].0 == k);
                    lemma_assoc_update(es0, i as int, v);
                    assert((es0[i as int].0, v) == (k, v));
                    assert(self.contents() == assoc_map(es0.update(i as int, (k, v))));
                    assert(assoc_map(es0.update(i as int, (k, v))) == assoc_map(es0).insert(k, v));
                    assert(keys_unique(ops_view(self.entries@))) by {
                        assert forall|a: int, b: int|
                            0 <= a < b < ops_view(self.entries@).len() implies (#[trigger] ops_view(
                            self.entries@,
                        )[a]).0 != (#[trigger] ops_view(self.entries@)[b]).0 by {
                            assert(es0[a].0 != es0[b].0);
                            assert(ops_view(self.entries@)[a].0 == es0[a].0);
                            assert(ops_view(self.entries@)[b].0 == es0[b].0);
                        }
                    }
                }
                return ;
            }
            i += 1;
        }
        proof {
            lemma_assoc_props(es0);
            if assoc_map(es0).dom().contains(k) {
                let j = choose|j: int| 0 <= j < es0.len() && (#[trigger] es0[j]).0 == k;
                assert(es0[j].0 != k);
            }
        }
        self.entries.push((key, value));
        proof {
            assert(ops_view(self.entries@) =~~= es0.push((k, v)));
            assert(ops_view(self.entries@).drop_last() =~~= es0);
            assert(keys_unique(ops_view(self.entries@))) by {
                assert forall|a: int, b: int|
                    0 <= a < b < ops_view(self.entries@).len() implies (#[trigger] ops_view(
                    self.entries@,
                )[a]).0 != (#[trigger] ops_view(self.entries@)[b]).0 by {
                    if b < es0.len() {
                        assert(es0[a].0 != es0[b].0);
                    } else {
                        assert(ops_view(self.entries@)[b].0 == k);
                        assert(es0[a].0 == ops_view(self.entries@)[a].0);
                        if es0[a].0 == k {
                            lemma_assoc_props(es0);
                        }
                    }
                }
            }
        }
    }

    /// Journaled era commit: apply the batch to the column.  Returns the
    /// record count, which the model takes to be the number of puts applied.
    pub fn commit(&mut self, batch: &WriteBatch, now: u64, id: u64, end: Option<(u64, u64)>) -> (r:
        u32)
        requires
            old(self).wf(),
            batch.puts().len() <= 0xffff_ffff,
        ensures
            final(self).wf(),
            final(self).contents() == apply_puts(old(self).contents(), batch.puts()),
            final(self).pruned_flag() == old(self).pruned_flag(),
            r == batch.puts().len(),
    {
        let _ = now;
        let _ = id;
        let _ = end;
        let n = batch.ops.len();
        proof {
            assert(batch.puts().skip(0) =~~= batch.puts());
        }
        let mut i: usize = 0;
        while i < n
            invariant
                self.wf(),
                self.pruned_flag() == old(self).pruned_flag(),
                0 <= i <= batch.puts().len(),
                n == batch.puts().len(),
                apply_puts(old(self).contents(), batch.puts()) == apply_puts(
                    self.contents(),
                    batch.puts().skip(i as int),
                ),
            decreases n - i,
        {
            proof {
                assert(batch.puts()[i as int] == (batch.ops@[i as int].0@, batch.ops@[i as int].1@));
            }
            let k = copy_bytes(&batch.ops[i].0);
            let v = copy_bytes(&batch.ops[i].1);
            let ghost pre = self.contents();
            self.put_entry(k, v);
            i += 1;
            proof {
                assert(batch.puts().skip(i - 1).drop_first() =~~= batch.puts().skip(i as int));
                assert(batch.puts().skip(i - 1)[0] == batch.puts()[i - 1]);
            }
        }
        proof {
            assert(batch.puts().skip(n as int).len() == 0);
        }
        n as u32
    }
}

/// Updating the value at an existing key edits the map in place.
pub proof fn lemma_assoc_update(es: Seq<(Seq<u8>, Seq<u8>)>, i: int, v: Seq<u8>)
    requires
        keys_unique(es),
        0 <= i < es.len(),
    ensures
        assoc_map(es.update(i, (es[i].0, v))) == assoc_map(es).insert(es[i].0, v),
    decreases es.len(),
{
    let k = es[i].0;
    let es2 = es.update(i, (k, v));
    if i == es.len() - 1 {
        assert(es2.drop_last() =~~= es.drop_last());
        assert(assoc_map(es2) == assoc_map(es.drop_last()).insert(k, v));
        assert(assoc_map(es).insert(k, v) =~~= assoc_map(es.drop_last()).insert(k, v));
    } else {
        let pre = es.drop_last();
        assert(keys_unique(pre)) by {
            assert forall|a: int, b: int| 0 <= a < b < pre.len() implies (#[trigger] pre[a]).0 != (
            #[trigger] pre[b]).0 by {
                assert(pre[a] == es[a] && pre[b] == es[b]);
            }
        }
        lemma_assoc_update(pre, i, v);
        assert(es2.drop_last() =~~= pre.update(i, (k, v)));
        assert(es2.last() == es.last());
        assert(k != es.last().0) by {
            assert(es[i].0 != es[es.len() - 1].0);
        }
        assert(assoc_map(es2) == assoc_map(pre).insert(k, v).insert(es.last().0, es.last().1));
        assert(assoc_map(pre).insert(k, v).insert(es.last().0, es.last().1) =~~= assoc_map(
            pre,
        ).insert(es.last().0, es.last().1).insert(k, v));
    }
}

} // verus!
