use vstd::prelude::*;

use crate::error::RenderError;

verus! {

/// Slot table ownership: each slot holds `Some(id)` while the external
/// texture `id` maps to it, and `None` once it is queued for removal.
/// No external id owns two slots.
pub open spec fn unique_owners(s: Seq<Option<u32>>) -> bool {
    forall|i: int, j: int|
        #![trigger s[i], s[j]]
        0 <= i < s.len() && 0 <= j < s.len() && s[i] is Some && s[i] == s[j] ==> i == j
}

/// `slot` is the slot that external texture `id` maps to.
pub open spec fn slot_of(s: Seq<Option<u32>>, id: u32, slot: int) -> bool {
    0 <= slot < s.len() && s[slot] == Some(id)
}

/// External texture `id` is currently mapped to some slot.
pub open spec fn is_mapped(s: Seq<Option<u32>>, id: u32) -> bool {
    exists|k: int| slot_of(s, id, k)
}

/// The slot table after the slot of `id`, if any, is queued for removal.
pub open spec fn retire(s: Seq<Option<u32>>, id: u32) -> Seq<Option<u32>> {
    s.map_values(|o: Option<u32>| if o == Some(id) { None } else { o })
}

/// The live slots of `s`, in slot order: the table after compaction.
pub open spec fn compacted(s: Seq<Option<u32>>) -> Seq<Option<u32>>
    decreases s.len(),
{
    if s.len() == 0 {
        Seq::empty()
    } else if s.last() is Some {
        compacted(s.drop_last()).push(s.last())
    } else {
        compacted(s.drop_last())
    }
}

/// The index that slot `i` moves to on compaction: the number of live
/// slots before it.
pub open spec fn rank(s: Seq<Option<u32>>, i: int) -> int {
    compacted(s.take(i)).len() as int
}

/// The entry of the compaction's remap table for old slot `i`: its new index
/// if it is live, `None` if it was queued for removal.
pub open spec fn remap_entry(s: Seq<Option<u32>>, i: int) -> Option<usize> {
    if s[i] is Some {
        Some(rank(s, i) as usize)
    } else {
        None
    }
}

/// A live slot `i` of `s` lands, on compaction, at index `rank(s, i)`.
pub proof fn lemma_compacted_rank(s: Seq<Option<u32>>, i: int)
    requires
        0 <= i < s.len(),
        s[i] is Some,
    ensures
        0 <= rank(s, i) < compacted(s).len(),
        compacted(s)[rank(s, i)] == s[i],
    decreases s.len(),
{
    let d = s.drop_last();
    if i == s.len() - 1 {
        assert(s.take(i) =~= d);
    } else {
        assert(s.take(i) =~= d.take(i));
        lemma_compacted_rank(d, i);
    }
}

/// Compaction never lengthens a table.
pub proof fn lemma_compacted_len(s: Seq<Option<u32>>)
    ensures
        compacted(s).len() <= s.len(),
    decreases s.len(),
{
    if s.len() > 0 {
        lemma_compacted_len(s.drop_last());
    }
}

/// Every entry of `compacted(s)` is a live slot of `s`.
pub proof fn lemma_compacted_from(s: Seq<Option<u32>>, k: int)
    requires
        0 <= k < compacted(s).len(),
    ensures
        exists|i: int| 0 <= i < s.len() && s[i] == compacted(s)[k] && (#[trigger] s[i]) is Some,
    decreases s.len(),
{
    let d = s.drop_last();
    if s.last() is Some && k == compacted(d).len() {
        assert(s[s.len() - 1] == compacted(s)[k]);
    } else {
        lemma_compacted_from(d, k);
        let i = choose|i: int| 0 <= i < d.len() && d[i] == compacted(d)[k] && (#[trigger] d[i]) is Some;
        assert(s[i] == d[i]);
    }
}

/// Compaction keeps the owners of a table unique.
pub proof fn lemma_compacted_unique(s: Seq<Option<u32>>)
    requires
        unique_owners(s),
    ensures
        unique_owners(compacted(s)),
    decreases s.len(),
{
    if s.len() > 0 {
        let d = s.drop_last();
        assert(unique_owners(d)) by {
            assert forall|i: int, j: int|
                #![trigger d[i], d[j]]
                0 <= i < d.len() && 0 <= j < d.len() && d[i] is Some && d[i] == d[j] implies i == j by {
                assert(s[i] == d[i] && s[j] == d[j]);
            }
        }
        lemma_compacted_unique(d);
        if s.last() is Some {
            let c = compacted(s);
            let cd = compacted(d);
            assert forall|a: int, b: int|
                #![trigger c[a], c[b]]
                0 <= a < c.len() && 0 <= b < c.len() && c[a] is Some && c[a] == c[b] implies a == b by {
                if a != b && (a == cd.len() || b == cd.len()) {
                    let o = if a == cd.len() { b } else { a };
                    lemma_compacted_from(d, o);
                    let i = choose|i: int| 0 <= i < d.len() && d[i] == cd[o] && (#[trigger] d[i]) is Some;
                    assert(s[i] == s[s.len() - 1]);
                } else if a != b {
                    assert(c[a] == cd[a] && c[b] == cd[b]);
                }
            }
        }
    }
}

/// Compaction renumbers the live slots into `0..compacted(s).len()` one to
/// one: each live slot gets an index in range, and distinct live slots get
/// distinct indices.
pub proof fn lemma_remap_dense(s: Seq<Option<u32>>)
    requires
        unique_owners(s),
    ensures
        forall|i: int| 0 <= i < s.len() && (#[trigger] s[i]) is Some ==> 0 <= rank(s, i) < compacted(s).len(),
        forall|i: int, j: int|
            #![trigger s[i], s[j]]
            0 <= i < s.len() && 0 <= j < s.len() && s[i] is Some && s[j] is Some && i != j
                ==> rank(s, i) != rank(s, j),
{
    assert forall|i: int| 0 <= i < s.len() && (#[trigger] s[i]) is Some implies 0 <= rank(s, i) < compacted(s).len() by {
        lemma_compacted_rank(s, i);
    }
    assert forall|i: int, j: int|
        #![trigger s[i], s[j]]
        0 <= i < s.len() && 0 <= j < s.len() && s[i] is Some && s[j] is Some && i != j implies rank(s, i) != rank(s, j) by {
        lemma_compacted_rank(s, i);
        lemma_compacted_rank(s, j);
    }
}

/// Every index of the compacted table is the new index of a live slot,
/// which is returned.
pub proof fn lemma_remap_onto(s: Seq<Option<u32>>, k: int) -> (i: int)
    requires
        unique_owners(s),
        0 <= k < compacted(s).len(),
    ensures
        0 <= i < s.len(),
        s[i] is Some,
        rank(s, i) == k,
        compacted(s)[k] == s[i],
{
    lemma_compacted_unique(s);
    lemma_compacted_from(s, k);
    let i = choose|i: int| 0 <= i < s.len() && s[i] == compacted(s)[k] && (#[trigger] s[i]) is Some;
    lemma_compacted_rank(s, i);
    let c = compacted(s);
    assert(c[rank(s, i)] == c[k]);
    i
}

/// No slot of `s` is queued for removal.
pub open spec fn all_live(s: Seq<Option<u32>>) -> bool {
    forall|i: int| 0 <= i < s.len() ==> (#[trigger] s[i]) is Some
}

/// A compacted table has no queued slot, and compacting a table that has
/// none leaves it as it is, each slot keeping its index.
pub proof fn lemma_compacted_live(s: Seq<Option<u32>>)
    ensures
        all_live(compacted(s)),
        all_live(s) ==> compacted(s) == s,
        all_live(s) ==> forall|i: int| 0 <= i <= s.len() ==> #[trigger] rank(s, i) == i,
    decreases s.len(),
{
    if s.len() > 0 {
        let d = s.drop_last();
        lemma_compacted_live(d);
        let c = compacted(s);
        let cd = compacted(d);
        assert forall|i: int| 0 <= i < c.len() implies (#[trigger] c[i]) is Some by {
            if i < cd.len() {
                assert(c[i] == cd[i]);
            }
        }
        if all_live(s) {
            assert(all_live(d)) by {
                assert forall|i: int| 0 <= i < d.len() implies (#[trigger] d[i]) is Some by {
                    assert(d[i] == s[i]);
                }
            }
            assert(s[s.len() - 1] is Some);
            assert(d.push(s.last()) =~= s);
            assert forall|i: int| 0 <= i <= s.len() implies #[trigger] rank(s, i) == i by {
                let p = s.take(i);
                assert(all_live(p)) by {
                    assert forall|k: int| 0 <= k < p.len() implies (#[trigger] p[k]) is Some by {
                        assert(p[k] == s[k]);
                    }
                }
                if i < s.len() {
                    lemma_compacted_live(p);
                } else {
                    assert(p =~= s);
                }
            }
        }
    } else {
        assert forall|i: int| 0 <= i <= s.len() implies #[trigger] rank(s, i) == i by {
            assert(s.take(i) =~= Seq::<Option<u32>>::empty());
        }
    }
}

/// Compaction keeps which texture ids are mapped.
pub proof fn lemma_compact_keeps_mapping(s: Seq<Option<u32>>, id: u32)
    ensures
        is_mapped(compacted(s), id) <==> is_mapped(s, id),
{
    if is_mapped(s, id) {
        let i = choose|i: int| slot_of(s, id, i);
        lemma_compacted_rank(s, i);
        assert(slot_of(compacted(s), id, rank(s, i)));
    }
    if is_mapped(compacted(s), id) {
        let k = choose|k: int| slot_of(compacted(s), id, k);
        lemma_compacted_from(s, k);
        let i = choose|i: int| 0 <= i < s.len() && s[i] == compacted(s)[k] && (#[trigger] s[i]) is Some;
        assert(slot_of(s, id, i));
    }
}

/// A change made to a texture table.
pub enum TexOp {
    /// `upload` under this id.
    Upload(u32),
    /// `remove` of this id.
    Remove(u32),
    /// `compact`.
    Compact,
}

/// `after` is the slot table that `op` leaves when applied to `before`, as
/// the contracts of `upload`, `remove` and `compact` state it.
pub open spec fn op_step(before: Seq<Option<u32>>, op: TexOp, after: Seq<Option<u32>>) -> bool {
    match op {
        TexOp::Upload(id) => after == retire(before, id).push(Some(id)),
        TexOp::Remove(id) => if is_mapped(before, id) {
            after == retire(before, id)
        } else {
            after == before
        },
        TexOp::Compact => after == compacted(before),
    }
}

/// The most recent upload or removal of `id` in `ops` is an upload.
pub open spec fn last_is_upload(ops: Seq<TexOp>, id: u32) -> bool
    decreases ops.len(),
{
    if ops.len() == 0 {
        false
    } else {
        match ops.last() {
            TexOp::Upload(x) => x == id || last_is_upload(ops.drop_last(), id),
            TexOp::Remove(x) => x != id && last_is_upload(ops.drop_last(), id),
            TexOp::Compact => last_is_upload(ops.drop_last(), id),
        }
    }
}

/// Starting from an empty table, after any run of uploads, removals and
/// compactions, `id` resolves exactly when its most recent operation was an
/// upload not yet followed by a removal.
pub proof fn lemma_resolve_history(states: Seq<Seq<Option<u32>>>, ops: Seq<TexOp>, id: u32)
    requires
        states.len() == ops.len() + 1,
        states[0] == Seq::<Option<u32>>::empty(),
        forall|k: int| 0 <= k < ops.len() ==> op_step(#[trigger] states[k], ops[k], states[k + 1]),
    ensures
        is_mapped(states.last(), id) <==> last_is_upload(ops, id),
    decreases ops.len(),
{
    let n = ops.len() as int;
    if n == 0 {
        assert(states.last() == states[0]);
        assert(!is_mapped(states[0], id));
    } else {
        let ps = states.drop_last();
        let po = ops.drop_last();
        assert forall|k: int| 0 <= k < po.len() implies op_step(#[trigger] ps[k], po[k], ps[k + 1]) by {
            assert(op_step(states[k], ops[k], states[k + 1]));
        }
        lemma_resolve_history(ps, po, id);
        let b = states[n - 1];
        let a = states[n];
        assert(op_step(states[n - 1], ops[n - 1], states[n]));
        assert(ps.last() == b);
        assert(states.last() == a);
        assert(ops.last() == ops[n - 1]);
        assert(ops.drop_last() == po);
        match ops.last() {
            TexOp::Upload(x) => {
                lemma_retire(b, x, id);
                if x == id {
                    assert(slot_of(a, id, a.len() - 1));
                    assert(is_mapped(a, id));
                    assert(last_is_upload(ops, id));
                } else {
                    if is_mapped(a, id) {
                        let k = choose|k: int| slot_of(a, id, k);
                        assert(k < a.len() - 1);
                        assert(a[k] == retire(b, x)[k]);
                        assert(slot_of(retire(b, x), id, k));
                    }
                    if is_mapped(retire(b, x), id) {
                        let k = choose|k: int| slot_of(retire(b, x), id, k);
                        assert(slot_of(a, id, k));
                    }
                    assert(is_mapped(a, id) == is_mapped(b, id));
                    assert(last_is_upload(ops, id) == last_is_upload(po, id));
                }
            },
            TexOp::Remove(x) => {
                lemma_retire(b, x, id);
                if x == id && !is_mapped(b, x) {
                    assert(a == b);
                }
                assert(is_mapped(a, id) <==> last_is_upload(ops, id));
            },
            TexOp::Compact => {
                lemma_compact_keeps_mapping(b, id);
                assert(is_mapped(a, id) <==> last_is_upload(ops, id));
            },
        }
    }
}

/// After `retire(s, x)`, `x` is unmapped and every other id keeps its
/// mapping.
pub proof fn lemma_retire(s: Seq<Option<u32>>, x: u32, id: u32)
    ensures
        !is_mapped(retire(s, x), x),
        id != x ==> (is_mapped(retire(s, x), id) <==> is_mapped(s, id)),
{
    if is_mapped(retire(s, x), x) {
        let k = choose|k: int| slot_of(retire(s, x), x, k);
        assert(false);
    }
    if id != x {
        if is_mapped(s, id) {
            let k = choose|k: int| slot_of(s, id, k);
            assert(slot_of(retire(s, x), id, k));
        }
        if is_mapped(retire(s, x), id) {
            let k = choose|k: int| slot_of(retire(s, x), id, k);
            assert(slot_of(s, id, k));
        }
    }
}

/// Maps stable external texture ids to dense internal slots of a texture
/// array. `T` is what a slot holds (an uploaded image). Removal is logical at
/// once and physical at the next `compact`.
pub struct Texman<T> {
    owners: Vec<Option<u32>>,
    payloads: Vec<T>,
    dirty: bool,
}

impl<T> Texman<T> {
    /// Ownership of each slot, in slot order.
    pub closed spec fn slots(&self) -> Seq<Option<u32>> {
        self.owners@
    }

    /// What each slot holds, in slot order.
    pub closed spec fn contents(&self) -> Seq<T> {
        self.payloads@
    }

    /// Whether the table changed since the last compaction.
    pub closed spec fn is_dirty(&self) -> bool {
        self.dirty
    }

    pub closed spec fn wf(&self) -> bool {
        &&& self.owners@.len() == self.payloads@.len()
        &&& unique_owners(self.owners@)
    }

    /// A well-formed table holds one payload per slot, and no id owns two
    /// slots.
    pub proof fn lemma_wf(&self)
        requires
            self.wf(),
        ensures
            self.contents().len() == self.slots().len(),
            unique_owners(self.slots()),
    {
    }

    /// An empty, clean table.
    pub fn new() -> (r: Self)
        ensures
            r.wf(),
            r.slots() == Seq::<Option<u32>>::empty(),
            r.contents() == Seq::<T>::empty(),
            !r.is_dirty(),
    {
        Texman { owners: Vec::new(), payloads: Vec::new(), dirty: false }
    }

    /// Finds the slot of `id`, if it is mapped.
    fn find(&self, id: u32) -> (r: Option<usize>)
        requires
            self.wf(),
        ensures
            r matches Some(k) ==> slot_of(self.slots(), id, k as int),
            r is None ==> !is_mapped(self.slots(), id),
    {
        let mut i: usize = 0;
        while i < self.owners.len()
            invariant
                i <= self.owners@.len(),
                forall|k: int| 0 <= k < i ==> self.owners@[k] != Some(id),
            decreases self.owners@.len() - i,
        {
            if self.owners[i] == Some(id) {
                return Some(i);
            }
            i += 1;
        }
        None
    }

    /// The slot that texture `id` is bound to; `UnknownHandle` when `id` is
    /// not mapped.
    pub fn resolve(&self, id: u32) -> (r: Result<usize, RenderError>)
        requires
            self.wf(),
        ensures
            r matches Ok(k) ==> slot_of(self.slots(), id, k as int),
            r is Err <==> !is_mapped(self.slots(), id),
            r matches Err(e) ==> e == RenderError::UnknownHandle,
    {
        match self.find(id) {
            Some(k) => Ok(k),
            None => Err(RenderError::UnknownHandle),
        }
    }

    /// Queues the slot of `id` (if any) for removal.
    fn retire_slot(&mut self, id: u32)
        requires
            old(self).wf(),
        ensures
            final(self).wf(),
            final(self).slots() == retire(old(self).slots(), id),
            final(self).contents() == old(self).contents(),
            final(self).is_dirty() == old(self).is_dirty(),
    {
        if let Some(k) = self.find(id) {
            self.owners.set(k, None);
            proof {
                let s = old(self).owners@;
                assert forall|j: int| 0 <= j < s.len() implies self.owners@[j] == retire(s, id)[j] by {
                    if j != k as int && s[j] == Some(id) {
                        assert(s[j] == s[k as int]);
                    }
                }
                assert(self.owners@ =~= retire(s, id));
            }
        } else {
            proof {
                let s = old(self).owners@;
                assert forall|j: int| 0 <= j < s.len() implies self.owners@[j] == retire(s, id)[j] by {
                    assert(!slot_of(s, id, j));
                }
                assert(self.owners@ =~= retire(s, id));
            }
        }
    }

    /// Inserts or replaces the texture under `id`: a fresh slot at the end
    /// holds `payload`, and a slot that `id` held before is queued for removal.
    pub fn upload(&mut self, payload: T, id: u32)
        requires
            old(self).wf(),
        ensures
            final(self).wf(),
            final(self).contents().len() == final(self).slots().len(),
            unique_owners(final(self).slots()),
            final(self).slots() == retire(old(self).slots(), id).push(Some(id)),
            final(self).contents() == old(self).contents().push(payload),
            final(self).is_dirty(),
    {
        self.retire_slot(id);
        self.owners.push(Some(id));
        self.payloads.push(payload);
        self.dirty = true;
        proof {
            let s = self.owners@;
            assert forall|i: int, j: int|
                #![trigger s[i], s[j]]
                0 <= i < s.len() && 0 <= j < s.len() && s[i] is Some && s[i] == s[j]
                implies i == j by {
                if i != j && (i == s.len() - 1 || j == s.len() - 1) {
                    let o = if i == s.len() - 1 { j } else { i };
                    assert(s[o] == Some(id));
                }
            }
        }
    }

    /// Queues the slot of `id` for removal; `UnknownHandle` when `id` is not
    /// mapped, and then nothing changes.
    pub fn remove(&mut self, outer: u32) -> (r: Result<(), RenderError>)
        requires
            old(self).wf(),
        ensures
            final(self).wf(),
            final(self).contents().len() == final(self).slots().len(),
            unique_owners(final(self).slots()),
            r is Err <==> !is_mapped(old(self).slots(), outer),
            r matches Err(e) ==> e == RenderError::UnknownHandle && *final(self) == *old(self),
            r is Ok ==> final(self).slots() == retire(old(self).slots(), outer)
                && final(self).contents() == old(self).contents() && final(self).is_dirty(),
    {
        match self.find(outer) {
            None => Err(RenderError::UnknownHandle),
            Some(_) => {
                self.retire_slot(outer);
                self.dirty = true;
                Ok(())
            },
        }
    }

    /// Drops every slot queued for removal and renumbers the live ones densely,
    /// keeping their order. Returns the remap table from old slot index to new
    /// slot index (`None` for a dropped slot) and clears the dirty flag.
    pub fn compact(&mut self) -> (r: Vec<Option<usize>>)
        requires
            old(self).wf(),
        ensures
            final(self).wf(),
            final(self).contents().len() == final(self).slots().len(),
            unique_owners(final(self).slots()),
            final(self).slots() == compacted(old(self).slots()),
            all_live(final(self).slots()),
            forall|id: u32| #[trigger] is_mapped(final(self).slots(), id) == is_mapped(old(self).slots(), id),
            all_live(old(self).slots()) ==> final(self).slots() == old(self).slots()
                && final(self).contents() == old(self).contents()
                && forall|i: int| 0 <= i < r@.len() ==> #[trigger] r@[i] == Some(i as usize),
            r@.len() == old(self).slots().len(),
            forall|i: int| 0 <= i < r@.len() ==> #[trigger] r@[i] == remap_entry(old(self).slots(), i),
            forall|i: int|
                0 <= i < old(self).slots().len() && (#[trigger] old(self).slots()[i]) is Some
                    ==> final(self).contents()[rank(old(self).slots(), i)] == old(self).contents()[i],
            !final(self).is_dirty(),
    {
        let ghost s = old(self).owners@;
        let ghost p = old(self).payloads@;
        let n = self.owners.len();
        let mut rest: Vec<T> = Vec::new();
        rest.append(&mut self.payloads);
        let mut owners: Vec<Option<u32>> = Vec::new();
        let mut remap: Vec<Option<usize>> = Vec::new();
        let ghost mut src: Seq<int> = Seq::empty();
        let mut i: usize = 0;
        while i < n
            invariant
                n == s.len(),
                s.len() == p.len(),
                self.owners@ == s,
                unique_owners(s),
                i <= n,
                rest@ == p.subrange(i as int, n as int),
                owners@ == compacted(s.take(i as int)),
                unique_owners(owners@),
                self.payloads@.len() == owners@.len(),
                src.len() == owners@.len(),
                forall|k: int| 0 <= k < src.len() ==> 0 <= #[trigger] src[k] < i && owners@[k] == s[src[k]]
                    && s[src[k]] is Some,
                remap@.len() == i,
                forall|j: int| 0 <= j < i ==> #[trigger] remap@[j] == remap_entry(s, j),
                forall|j: int| 0 <= j < i && (#[trigger] s[j]) is Some
                    ==> rank(s, j) < self.payloads@.len() && self.payloads@[rank(s, j)] == p[j],
            decreases n - i,
        {
            let payload = rest.remove(0);
            proof {
                assert(s.take(i + 1).drop_last() =~= s.take(i as int));
                assert(s.take(i as int).take(i as int) =~= s.take(i as int));
                assert(s.take(i + 1).last() == s[i as int]);
            }
            match self.owners[i] {
                Some(id) => {
                    proof {
                        assert forall|k: int| 0 <= k < owners@.len() implies owners@[k] != Some(id) by {
                            if owners@[k] == Some(id) {
                                assert(s[src[k]] == s[i as int]);
                            }
                        }
                    }
                    remap.push(Some(owners.len()));
                    owners.push(Some(id));
                    self.payloads.push(payload);
                    proof {
                        src = src.push(i as int);
                        let o = owners@;
                        assert forall|a: int, b: int|
                            #![trigger o[a], o[b]]
                            0 <= a < o.len() && 0 <= b < o.len() && o[a] is Some && o[a] == o[b]
                            implies a == b by {
                            if a != b && (a == o.len() - 1 || b == o.len() - 1) {
                                let c = if a == o.len() - 1 { b } else { a };
                                assert(o[c] == Some(id));
                            }
                        }
                    }
                },
                None => {
                    remap.push(None);
                },
            }
            proof {
                assert(rest@ =~= p.subrange(i + 1, n as int));
                assert forall|j: int| 0 <= j <= i && (#[trigger] s[j]) is Some
                    implies rank(s, j) < self.payloads@.len() && self.payloads@[rank(s, j)] == p[j] by {
                }
            }
            i += 1;
        }
        proof {
            assert(s.take(n as int) =~= s);
        }
        self.owners = owners;
        self.dirty = false;
        proof {
            lemma_compacted_live(s);
            assert forall|id: u32| #[trigger] is_mapped(self.owners@, id) == is_mapped(s, id) by {
                lemma_compact_keeps_mapping(s, id);
            }
            if all_live(s) {
                assert forall|i: int| 0 <= i < p.len() implies self.payloads@[i] == p[i] by {
                    assert(s[i] is Some);
                    assert(rank(s, i) == i);
                }
                assert(self.payloads@ =~= p);
                assert forall|i: int| 0 <= i < remap@.len() implies #[trigger] remap@[i] == Some(i as usize) by {
                    assert(s[i] is Some);
                    assert(rank(s, i) == i);
                }
            }
        }
        remap
    }

    /// Number of slots, live or queued for removal.
    pub fn slot_count(&self) -> (r: usize)
        requires
            self.wf(),
        ensures
            r == self.slots().len(),
    {
        self.owners.len()
    }

    /// Compacts the table (see `compact`) and returns the number of live
    /// textures, which is now the number of slots.
    pub fn tex_len(&mut self) -> (r: usize)
        requires
            old(self).wf(),
        ensures
            final(self).wf(),
            final(self).contents().len() == final(self).slots().len(),
            final(self).slots() == compacted(old(self).slots()),
            all_live(final(self).slots()),
            forall|i: int|
                0 <= i < old(self).slots().len() && (#[trigger] old(self).slots()[i]) is Some
                    ==> final(self).contents()[rank(old(self).slots(), i)] == old(self).contents()[i],
            r == compacted(old(self).slots()).len(),
            !final(self).is_dirty(),
    {
        let _ = self.compact();
        self.owners.len()
    }

    /// What each slot holds, in slot order.
    pub fn payloads(&self) -> (r: &Vec<T>)
        ensures
            r@ == self.contents(),
    {
        &self.payloads
    }

    /// Whether the table changed since the last compaction.
    pub fn get_dirty(&self) -> (r: bool)
        ensures
            r == self.is_dirty(),
    {
        self.dirty
    }
}

} // verus!
