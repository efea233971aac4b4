//! The storage model: an ordered collection of todo entries with
//! storage-assigned, strictly increasing ids.
//!
//! Entries are kept in insertion order. The store assigns each inserted
//! entry a fresh id, one larger than the previous one, and never reuses
//! an id after a deletion; deleting an id that is not present leaves the
//! store unchanged.
use vstd::prelude::*;

verus! {

/// One todo entry: a storage-assigned id and the user-supplied text.
pub struct TodoEntry {
    pub id: u32,
    pub text: String,
}

/// The mathematical value of a [`TodoEntry`]: its id and its text as a
/// character sequence.
#[verifier::ext_equal]
pub struct EntryView {
    pub id: u32,
    pub text: Seq<char>,
}

impl View for TodoEntry {
    type V = EntryView;

    open spec fn view(&self) -> EntryView {
        EntryView { id: self.id, text: self.text@ }
    }
}

impl Clone for TodoEntry {
    fn clone(&self) -> (r: Self)
        ensures
            r@ == self@,
    {
        TodoEntry { id: self.id, text: self.text.clone() }
    }
}

/// True when the ids in `s` are strictly increasing from front to back.
pub open spec fn ids_increasing(s: Seq<EntryView>) -> bool {
    forall|i: int, j: int| #![trigger s[i], s[j]] 0 <= i < j < s.len() ==> s[i].id < s[j].id
}

/// True when every id in `s` is below `bound`.
pub open spec fn ids_below(s: Seq<EntryView>, bound: u32) -> bool {
    forall|i: int| 0 <= i < s.len() ==> (#[trigger] s[i]).id < bound
}

/// The ordered collection of todo entries. Its view is the sequence of
/// entry values in insertion order.
pub struct TodoStore {
    entries: Vec<TodoEntry>,
    next_id: u32,
}

impl View for TodoStore {
    type V = Seq<EntryView>;

    closed spec fn view(&self) -> Seq<EntryView> {
        self.entries@.map_values(|e: TodoEntry| e@)
    }
}

impl TodoStore {
    /// The id that the next insertion will assign.
    pub closed spec fn fresh_id(&self) -> u32 {
        self.next_id
    }

    /// Well-formedness: entries stand in insertion order with strictly
    /// increasing ids, and every assigned id lies below the next fresh one.
    pub open spec fn wf(&self) -> bool {
        &&& ids_increasing(self@)
        &&& ids_below(self@, self.fresh_id())
    }

    /// An empty store; the first insertion will assign id 1.
    pub fn new() -> (s: Self)
        ensures
            s@ == Seq::<EntryView>::empty(),
            s.fresh_id() == 1,
            s.wf(),
    {
        let s = TodoStore { entries: Vec::new(), next_id: 1 };
        proof {
            assert(s@ =~= Seq::<EntryView>::empty());
        }
        s
    }

    /// Appends a new entry holding `text` under the next fresh id.
    pub fn insert(&mut self, text: String)
        requires
            old(self).wf(),
            old(self).fresh_id() < u32::MAX,
        ensures
            final(self)@ == old(self)@.push(
                EntryView { id: old(self).fresh_id(), text: text@ },
            ),
            final(self).fresh_id() == old(self).fresh_id() + 1,
            final(self).wf(),
    {
        let ghost pre = self@;
        let entry = TodoEntry { id: self.next_id, text };
        self.entries.push(entry);
        self.next_id = self.next_id + 1;
        proof {
            assert(self@ =~= pre.push(entry@));
        }
    }

    /// The entries in storage order, each equal in value to the stored one.
    pub fn list_all(&self) -> (r: Vec<TodoEntry>)
        ensures
            r@.map_values(|e: TodoEntry| e@) == self@,
    {
        let mut r: Vec<TodoEntry> = Vec::new();
        let mut i: usize = 0;
        while i < self.entries.len()
            invariant
                i <= self.entries@.len(),
                r@.map_values(|e: TodoEntry| e@) == self@.take(i as int),
            decreases self.entries@.len() - i,
        {
            let ghost prev = r@.map_values(|e: TodoEntry| e@);
            r.push(self.entries[i].clone());
            i = i + 1;
            proof {
                assert(r@.map_values(|e: TodoEntry| e@) =~= prev.push(self.entries@[i - 1]@));
                assert(self@.take(i as int) =~= self@.take(i - 1).push(self@[i - 1]));
            }
        }
        proof {
            assert(self@.take(self.entries@.len() as int) =~= self@);
        }
        r
    }

    /// Removes the entry with the given id if one is present; removing an
    /// absent id changes nothing. Ids already assigned stay assigned.
    pub fn delete(&mut self, id: u32)
        requires
            old(self).wf(),
        ensures
            final(self)@ == old(self)@.filter(|e: EntryView| e.id != id),
            final(self).fresh_id() == old(self).fresh_id(),
            final(self).wf(),
    {
        let ghost pre = self@;
        let ghost pred = |e: EntryView| e.id != id;
        let mut kept: Vec<TodoEntry> = Vec::new();
        let mut i: usize = 0;
        while i < self.entries.len()
            invariant
                i <= self.entries@.len(),
                pre == self@,
                pred == (|e: EntryView| e.id != id),
                kept@.map_values(|e: TodoEntry| e@) == pre.take(i as int).filter(pred),
            decreases self.entries@.len() - i,
        {
            let ghost prev = kept@.map_values(|e: TodoEntry| e@);
            if self.entries[i].id != id {
                kept.push(self.entries[i].clone());
                proof {
                    assert(kept@.map_values(|e: TodoEntry| e@) =~= prev.push(pre[i as int]));
                }
            }
            i = i + 1;
            proof {
                reveal(Seq::filter);
                assert(pre.take(i as int).drop_last() =~= pre.take(i - 1));
                assert(pre.take(i as int).last() == pre[i - 1]);
                if pred(pre[i - 1]) {
                    assert(pre.take(i as int).filter(pred) =~= prev.push(pre[i - 1]));
                } else {
                    assert(pre.take(i as int).filter(pred) =~= prev);
                }
            }
        }
        proof {
            assert(pre.take(pre.len() as int) =~= pre);
        }
        self.entries = kept;
        proof {
            lemma_filter_keeps_order(pre, pred);
            assert forall|k: int| 0 <= k < self@.len() implies (#[trigger] self@[k]).id
                < self.fresh_id() by {
                assert(pre.contains(self@[k]));
                let m = choose|m: int| 0 <= m < pre.len() && pre[m] == self@[k];
                assert(pre[m].id < self.fresh_id());
            }
        }
    }
}

/// In a well-formed store no present entry carries the next fresh id, so
/// the id an insertion assigns is new to the list.
pub proof fn lemma_fresh_id_absent(s: TodoStore)
    requires
        s.wf(),
    ensures
        forall|i: int| 0 <= i < s@.len() ==> (#[trigger] s@[i]).id != s.fresh_id(),
{
}

/// Listing mutates nothing, so any two listings of the same store with no
/// write in between return the same entry sequence.
pub proof fn lemma_list_idempotent(s: TodoStore, r1: Seq<EntryView>, r2: Seq<EntryView>)
    requires
        r1 == s@,
        r2 == s@,
    ensures
        r1 == r2,
{
}

/// The round trip against a well-formed store: inserting any text and
/// then deleting the id that the insertion assigned leaves the listing as
/// it was, and in between the listing ends with the new entry.
pub proof fn lemma_store_round_trip(s: TodoStore, text: Seq<char>)
    requires
        s.wf(),
    ensures
        s@.push(EntryView { id: s.fresh_id(), text }).last() == (EntryView {
            id: s.fresh_id(),
            text,
        }),
        s@.push(EntryView { id: s.fresh_id(), text }).filter(|e: EntryView| e.id != s.fresh_id())
            == s@,
{
    lemma_fresh_id_absent(s);
    lemma_add_delete_round_trip(s@, s.fresh_id(), text);
}

/// Inserting an entry under a fresh id and then deleting that id restores
/// the original sequence; in between, the list ends with the new entry.
pub proof fn lemma_add_delete_round_trip(s: Seq<EntryView>, id: u32, text: Seq<char>)
    requires
        forall|i: int| 0 <= i < s.len() ==> (#[trigger] s[i]).id != id,
    ensures
        s.push(EntryView { id, text }).last() == (EntryView { id, text }),
        s.push(EntryView { id, text }).filter(|e: EntryView| e.id != id) == s,
{
    reveal(Seq::filter);
    let added = s.push(EntryView { id, text });
    assert(added.drop_last() =~= s);
    lemma_delete_absent_unchanged(s, id);
    assert(added.filter(|e: EntryView| e.id != id) =~= s);
}

/// Entries inserted one after the other stand at the end of the list in
/// insertion order, the earlier one's id below the later one's.
pub proof fn lemma_insert_ordering(s: Seq<EntryView>, a: EntryView, b: EntryView)
    requires
        a.id < b.id,
    ensures
        s.push(a).push(b).len() == s.len() + 2,
        s.push(a).push(b)[s.len() as int] == a,
        s.push(a).push(b)[s.len() as int + 1] == b,
        s.push(a).push(b)[s.len() as int].id < s.push(a).push(b)[s.len() as int + 1].id,
{
}

/// Deleting an id that no entry carries leaves the sequence unchanged.
pub proof fn lemma_delete_absent_unchanged(s: Seq<EntryView>, id: u32)
    requires
        forall|i: int| 0 <= i < s.len() ==> (#[trigger] s[i]).id != id,
    ensures
        s.filter(|e: EntryView| e.id != id) == s,
    decreases s.len(),
{
    reveal(Seq::filter);
    if s.len() > 0 {
        let front = s.drop_last();
        assert(forall|i: int| 0 <= i < front.len() ==> (#[trigger] front[i]).id != id) by {
            assert(forall|i: int| 0 <= i < front.len() ==> front[i] == #[trigger] s[i]);
        }
        lemma_delete_absent_unchanged(front, id);
        assert(s.last().id != id);
        assert(s.filter(|e: EntryView| e.id != id) =~= s);
    }
}

/// Filtering a sequence keeps the relative order of what it keeps, and
/// every kept element occurs in the original: strictly increasing ids
/// stay strictly increasing.
pub proof fn lemma_filter_keeps_order(s: Seq<EntryView>, pred: spec_fn(EntryView) -> bool)
    requires
        ids_increasing(s),
    ensures
        ids_increasing(s.filter(pred)),
        forall|k: int| 0 <= k < s.filter(pred).len() ==> s.contains(#[trigger] s.filter(pred)[k]),
    decreases s.len(),
{
    reveal(Seq::filter);
    if s.len() > 0 {
        let front = s.drop_last();
        assert(ids_increasing(front)) by {
            assert forall|i: int, j: int| 0 <= i < j < front.len() implies front[i].id
                < front[j].id by {
                assert(s[i] == front[i] && s[j] == front[j]);
            }
        }
        lemma_filter_keeps_order(front, pred);
        let ff = front.filter(pred);
        assert forall|k: int| 0 <= k < ff.len() implies s.contains(#[trigger] ff[k]) by {
            assert(front.contains(ff[k]));
            let m = choose|m: int| 0 <= m < front.len() && front[m] == ff[k];
            assert(s[m] == ff[k]);
        }
        if pred(s.last()) {
            let f = s.filter(pred);
            assert(f == ff.push(s.last()));
            assert forall|i: int, j: int| 0 <= i < j < f.len() implies f[i].id < f[j].id by {
                if j < ff.len() {
                    assert(f[i] == ff[i] && f[j] == ff[j]);
                } else {
                    assert(f[j] == s.last());
                    assert(f[i] == ff[i]);
                    assert(front.contains(ff[i]));
                    let m = choose|m: int| 0 <= m < front.len() && front[m] == ff[i];
                    assert(s[m] == ff[i]);
                    assert(s[m].id < s.last().id);
                }
            }
            assert forall|k: int| 0 <= k < f.len() implies s.contains(#[trigger] f[k]) by {
                if k < ff.len() {
                    assert(s.contains(ff[k]));
                } else {
                    assert(f[k] == s.last());
                    assert(s.contains(s.last()));
                }
            }
        }
    }
}

} // verus!
