//! The ordering index.
//!
//! Each record type owns one ordering index: a sequence of (identifier,
//! rank) entries kept sorted by rank, the model of the backing engine's
//! sorted set.  Appending computes the next rank as cardinality plus one;
//! removal is a no-op for an absent identifier; range reads use
//! engine-native rank semantics, where a negative rank counts from the end;
//! scores can be adjusted to curate the order by hand.  An empty index
//! answers first/last with the nil sentinel instead of an error.

use vstd::prelude::*;
use crate::ident::Id;

verus! {

/// The per-record-type ordering structure.
pub struct OrderingIndex {
    entries: Vec<(Id, i64)>,
}

impl View for OrderingIndex {
    type V = Seq<(Id, i64)>;

    closed spec fn view(&self) -> Seq<(Id, i64)> {
        self.entries@
    }
}

/// The identifiers of a run of entries, in order.
pub open spec fn entry_ids(s: Seq<(Id, i64)>) -> Seq<Id> {
    s.map_values(|e: (Id, i64)| e.0)
}

/// Entries sorted by rank, ties kept in insertion order.
pub open spec fn scores_sorted(s: Seq<(Id, i64)>) -> bool {
    forall|i: int, j: int| 0 <= i < j < s.len() ==> #[trigger] s[i].1 <= #[trigger] s[j].1
}

/// Where an entry with the given rank is inserted: after every entry whose
/// rank is not larger.
pub open spec fn insert_pos(s: Seq<(Id, i64)>, score: i64) -> int
    decreases s.len(),
{
    if s.len() == 0 {
        0
    } else if s[0].1 > score {
        0
    } else {
        1 + insert_pos(s.drop_first(), score)
    }
}

/// The entries after a sorted insertion.
pub open spec fn spec_insert_sorted(s: Seq<(Id, i64)>, e: (Id, i64)) -> Seq<(Id, i64)> {
    s.insert(insert_pos(s, e.1), e)
}

/// The entries after an append: the identifier is added with rank
/// cardinality-plus-one.
pub open spec fn spec_append(s: Seq<(Id, i64)>, id: Id) -> Seq<(Id, i64)> {
    spec_insert_sorted(s, (id, (s.len() + 1) as i64))
}

/// The predicate keeping every entry of other identifiers.
pub open spec fn keeps(id: Id) -> spec_fn((Id, i64)) -> bool {
    |e: (Id, i64)| e.0 != id
}

/// The entries after a removal: every entry of the identifier goes.
pub open spec fn spec_remove_id(s: Seq<(Id, i64)>, id: Id) -> Seq<(Id, i64)> {
    s.filter(keeps(id))
}

/// The rank of the identifier's first entry, if any.
pub open spec fn spec_score_of(s: Seq<(Id, i64)>, id: Id) -> Option<i64>
    decreases s.len(),
{
    if s.len() == 0 {
        None
    } else if s[0].0 == id {
        Some(s[0].1)
    } else {
        spec_score_of(s.drop_first(), id)
    }
}

/// The index of the identifier's first entry, if any.
pub open spec fn spec_find(s: Seq<(Id, i64)>, id: Id) -> Option<int>
    decreases s.len(),
{
    if s.len() == 0 {
        None
    } else if s[0].0 == id {
        Some(0)
    } else {
        match spec_find(s.drop_first(), id) {
            Some(i) => Some(i + 1),
            None => None,
        }
    }
}

/// A rank argument resolved against the length: a negative rank counts from
/// the end.
pub open spec fn resolve_rank(i: int, len: int) -> int {
    if i < 0 {
        len + i
    } else {
        i
    }
}

/// The identifiers of the inclusive rank window, with engine-native
/// clamping: the start is raised to the first rank, the stop lowered to the
/// last, and an empty or inverted window gives nothing.
pub open spec fn spec_range(s: Seq<(Id, i64)>, start: int, stop: int) -> Seq<Id> {
    let len = s.len() as int;
    let lo0 = resolve_rank(start, len);
    let lo = if lo0 < 0 {
        0
    } else {
        lo0
    };
    let hi0 = resolve_rank(stop, len);
    let hi = if hi0 >= len {
        len - 1
    } else {
        hi0
    };
    if lo <= hi && lo < len {
        entry_ids(s).subrange(lo, hi + 1)
    } else {
        Seq::empty()
    }
}

/// The first identifier, or the nil sentinel when the index is empty.
pub open spec fn spec_first(s: Seq<(Id, i64)>) -> Id {
    if s.len() == 0 {
        Id::spec_nil()
    } else {
        s[0].0
    }
}

/// The last identifier, or the nil sentinel when the index is empty.
pub open spec fn spec_last(s: Seq<(Id, i64)>) -> Id {
    if s.len() == 0 {
        Id::spec_nil()
    } else {
        s[s.len() - 1].0
    }
}

/// The entries after a score adjustment: an absent identifier is added at
/// the delta itself, a present one moves to its old rank plus the delta,
/// re-inserted at its sorted position.
pub open spec fn spec_adjust(s: Seq<(Id, i64)>, id: Id, delta: i64) -> Seq<(Id, i64)> {
    match spec_find(s, id) {
        None => spec_insert_sorted(s, (id, delta)),
        Some(i) => spec_insert_sorted(s.remove(i), (id, (s[i].1 + delta) as i64)),
    }
}

/// The insertion position splits the entries into ranks at most the new one
/// and ranks above it.
pub proof fn lemma_insert_pos_properties(s: Seq<(Id, i64)>, score: i64)
    requires
        scores_sorted(s),
    ensures
        0 <= insert_pos(s, score) <= s.len(),
        forall|i: int| 0 <= i < insert_pos(s, score) ==> #[trigger] s[i].1 <= score,
        forall|i: int| insert_pos(s, score) <= i < s.len() ==> #[trigger] s[i].1 > score,
    decreases s.len(),
{
    if s.len() == 0 {
    } else if s[0].1 > score {
        assert forall|i: int| 0 <= i < s.len() implies #[trigger] s[i].1 > score by {
            if i > 0 {
                assert(s[0].1 <= s[i].1);
            }
        }
    } else {
        let t = s.drop_first();
        assert(scores_sorted(t)) by {
            assert(forall|i: int| 0 <= i < t.len() ==> #[trigger] t[i] == s[i + 1]);
        }
        lemma_insert_pos_properties(t, score);
        let ip = insert_pos(s, score);
        assert(ip == 1 + insert_pos(t, score));
        assert forall|i: int| 0 <= i < ip implies #[trigger] s[i].1 <= score by {
            if i > 0 {
                assert(t[i - 1] == s[i]);
                assert(t[i - 1].1 <= score);
            }
        }
        assert forall|i: int| ip <= i < s.len() implies #[trigger] s[i].1 > score by {
            assert(t[i - 1] == s[i]);
            assert(t[i - 1].1 > score);
        }
    }
}

/// Sorted insertion keeps the entries sorted.
pub proof fn lemma_insert_sorted_wf(s: Seq<(Id, i64)>, e: (Id, i64))
    requires
        scores_sorted(s),
    ensures
        scores_sorted(spec_insert_sorted(s, e)),
        spec_insert_sorted(s, e).len() == s.len() + 1,
{
    let pos = insert_pos(s, e.1);
    lemma_insert_pos_properties(s, e.1);
    s.insert_ensures(pos, e);
    let t = spec_insert_sorted(s, e);
    assert forall|i: int, j: int| 0 <= i < j < t.len() implies #[trigger] t[i].1
        <= #[trigger] t[j].1 by {
        if i < pos {
            assert(t[i] == s[i]);
        } else if i == pos {
            assert(t[i] == e);
        } else {
            assert(t[i] == s[i - 1]);
        }
        if j < pos {
            assert(t[j] == s[j]);
        } else if j == pos {
            assert(t[j] == e);
        } else {
            assert(t[j] == s[j - 1]);
        }
    }
}

impl OrderingIndex {
    /// The index invariant: entries stand sorted by rank.
    pub open spec fn wf(&self) -> bool {
        scores_sorted(self@)
    }

    /// An empty ordering index.
    pub fn new() -> (r: OrderingIndex)
        ensures
            r@ == Seq::<(Id, i64)>::empty(),
            r.wf(),
    {
        OrderingIndex { entries: Vec::new() }
    }

    /// How many entries the index holds.
    pub fn cardinality(&self) -> (r: usize)
        ensures
            r == self@.len(),
    {
        self.entries.len()
    }

    /// Add an identifier with rank cardinality-plus-one, keeping rank
    /// order.  Returns the rank.  An identifier already present gains a
    /// second entry; nothing guards against that reuse.
    pub fn append(&mut self, id: Id) -> (rank: i64)
        requires
            old(self).wf(),
            old(self)@.len() < 0x7fff_ffff_ffff_ffff,
        ensures
            rank == old(self)@.len() + 1,
            final(self)@ == spec_append(old(self)@, id),
            final(self)@.len() == old(self)@.len() + 1,
            final(self).wf(),
    {
        let score: i64 = (self.entries.len() as i64) + 1;
        let mut pos: usize = 0;
        while pos < self.entries.len() && self.entries[pos].1 <= score
            invariant
                0 <= pos <= self.entries@.len(),
                forall|i: int| 0 <= i < pos ==> #[trigger] self.entries@[i].1 <= score,
            decreases self.entries@.len() - pos,
        {
            pos += 1;
        }
        proof {
            lemma_insert_pos_properties(self@, score);
            let ip = insert_pos(self@, score);
            if pos < ip {
                assert(self@[pos as int].1 <= score);
                assert(false);
            }
            if ip < pos {
                assert(self@[ip].1 <= score);
                assert(false);
            }
            lemma_insert_sorted_wf(self@, (id, score));
        }
        self.entries.insert(pos, (id, score));
        score
    }

    /// Drop every entry of the identifier; removing an absent identifier is
    /// a no-op, not an error.
    pub fn remove(&mut self, id: Id)
        requires
            old(self).wf(),
        ensures
            final(self)@ == spec_remove_id(old(self)@, id),
            final(self).wf(),
    {
        let ghost orig = self@;
        let mut kept: Vec<(Id, i64)> = Vec::new();
        let mut j: usize = 0;
        while j < self.entries.len()
            invariant
                self@ == orig,
                scores_sorted(orig),
                0 <= j <= orig.len(),
                kept@ == orig.subrange(0, j as int).filter(keeps(id)),
                scores_sorted(kept@),
                forall|k: int, j2: int| 0 <= k < kept@.len() && j <= j2 < orig.len()
                    ==> #[trigger] kept@[k].1 <= #[trigger] orig[j2].1,
            decreases orig.len() - j,
        {
            let ghost pre = orig.subrange(0, j as int);
            let entry = self.entries[j];
            proof {
                assert(orig.subrange(0, j + 1) =~= pre + seq![entry]);
                Seq::filter_distributes_over_add(pre, seq![entry], keeps(id));
                reveal_with_fuel(Seq::filter, 2);
                assert(seq![entry].drop_last() =~= Seq::<(Id, i64)>::empty());
                if keeps(id)(entry) {
                    assert(seq![entry].filter(keeps(id)) =~= seq![entry]);
                } else {
                    assert(seq![entry].filter(keeps(id)) =~= Seq::<(Id, i64)>::empty());
                }
            }
            if !(entry.0 == id) {
                let ghost prev = kept@;
                kept.push(entry);
                proof {
                    assert(kept@ =~= prev + seq![entry]);
                    assert(kept@ == orig.subrange(0, j + 1).filter(keeps(id)));
                }
            }
            j += 1;
        }
        proof {
            assert(orig.subrange(0, orig.len() as int) =~= orig);
        }
        self.entries = kept;
    }

    /// The rank of the identifier's entry, or `None` when it has none.
    pub fn score(&self, id: Id) -> (r: Option<i64>)
        ensures
            r == spec_score_of(self@, id),
    {
        let mut j: usize = 0;
        proof {
            assert(self@.skip(0) =~= self@);
        }
        while j < self.entries.len()
            invariant
                0 <= j <= self@.len(),
                spec_score_of(self@, id) == spec_score_of(self@.skip(j as int), id),
            decreases self@.len() - j,
        {
            let entry = self.entries[j];
            proof {
                assert(self@.skip(j as int)[0] == entry);
            }
            if entry.0 == id {
                return Some(entry.1);
            }
            proof {
                lemma_score_skip_step(self@, id, j as int);
            }
            j += 1;
        }
        proof {
            assert(self@.skip(self@.len() as int).len() == 0);
        }
        None
    }

    /// Move the identifier's entry by `delta`, or add it at rank `delta`
    /// when absent, keeping rank order.
    pub fn adjust_score(&mut self, id: Id, delta: i64)
        requires
            old(self).wf(),
            match spec_find(old(self)@, id) {
                Some(i) => i64::MIN <= old(self)@[i].1 + delta <= i64::MAX,
                None => true,
            },
        ensures
            final(self)@ == spec_adjust(old(self)@, id, delta),
            final(self)@.len() == (match spec_find(old(self)@, id) {
                Some(_) => old(self)@.len() as int,
                None => old(self)@.len() as int + 1,
            }),
            final(self).wf(),
    {
        let ghost orig = self@;
        let mut j: usize = 0;
        proof {
            assert(orig.skip(0) =~= orig);
        }
        while j < self.entries.len()
            invariant
                self@ == orig,
                orig == old(self)@,
                scores_sorted(orig),
                match spec_find(orig, id) {
                    Some(i) => i64::MIN <= orig[i].1 + delta <= i64::MAX,
                    None => true,
                },
                0 <= j <= orig.len(),
                spec_find(orig, id) == match spec_find(orig.skip(j as int), id) {
                    Some(i) => Some(i + j as int),
                    None => None::<int>,
                },
                forall|i: int| 0 <= i < j ==> #[trigger] orig[i].0 != id,
            decreases orig.len() - j,
        {
            let entry = self.entries[j];
            proof {
                assert(orig.skip(j as int)[0] == entry);
            }
            if entry.0 == id {
                proof {
                    assert(spec_find(orig, id) == Some(j as int));
                }
                let old_score: i64 = entry.1;
                self.entries.remove(j);
                let new_score: i64 = old_score + delta;
                proof {
                    lemma_remove_keeps_sorted(orig, j as int);
                    lemma_insert_sorted_wf(self@, (id, new_score));
                }
                let pos: usize = self.position_for(new_score);
                self.entries.insert(pos, (id, new_score));
                proof {
                    assert(orig == old(self)@);
                    assert(new_score == (orig[j as int].1 + delta) as i64);
                    assert(self@ == spec_insert_sorted(
                        orig.remove(j as int),
                        (id, new_score),
                    ));
                    assert(spec_adjust(orig, id, delta) == spec_insert_sorted(
                        orig.remove(j as int),
                        (id, (orig[j as int].1 + delta) as i64),
                    ));
                    assert(self@ == spec_adjust(orig, id, delta));
                }
                return ;
            }
            proof {
                lemma_find_skip_step(orig, id, j as int);
            }
            j += 1;
        }
        proof {
            assert(orig.skip(orig.len() as int).len() == 0);
            assert(spec_find(orig, id) is None);
            lemma_insert_sorted_wf(orig, (id, delta));
        }
        let pos: usize = self.position_for(delta);
        self.entries.insert(pos, (id, delta));
    }

    /// The sorted insertion point for a rank.
    fn position_for(&self, score: i64) -> (pos: usize)
        requires
            self.wf(),
        ensures
            pos == insert_pos(self@, score),
            0 <= pos <= self@.len(),
    {
        let mut pos: usize = 0;
        while pos < self.entries.len() && self.entries[pos].1 <= score
            invariant
                0 <= pos <= self.entries@.len(),
                forall|i: int| 0 <= i < pos ==> #[trigger] self.entries@[i].1 <= score,
            decreases self.entries@.len() - pos,
        {
            pos += 1;
        }
        proof {
            lemma_insert_pos_properties(self@, score);
            let ip = insert_pos(self@, score);
            if pos < ip {
                assert(self@[pos as int].1 <= score);
                assert(false);
            }
            if ip < pos {
                assert(self@[ip].1 <= score);
                assert(false);
            }
        }
        pos
    }

    /// The first identifier in rank order, or the nil sentinel when the
    /// index is empty.
    pub fn first(&self) -> (r: Id)
        ensures
            r == spec_first(self@),
            self@.len() == 0 ==> r == Id::spec_nil(),
    {
        if self.entries.len() == 0 {
            Id::nil()
        } else {
            self.entries[0].0
        }
    }

    /// The last identifier in rank order, or the nil sentinel when the
    /// index is empty.
    pub fn last(&self) -> (r: Id)
        ensures
            r == spec_last(self@),
            self@.len() == 0 ==> r == Id::spec_nil(),
    {
        if self.entries.len() == 0 {
            Id::nil()
        } else {
            self.entries[self.entries.len() - 1].0
        }
    }

    /// The identifiers of the inclusive rank window `[start, stop]`, where
    /// a negative rank counts from the end.
    pub fn range(&self, start: isize, stop: isize) -> (r: Vec<Id>)
        requires
            self@.len() <= isize::MAX,
        ensures
            r@ == spec_range(self@, start as int, stop as int),
    {
        let len: usize = self.entries.len();
        let lo: usize = if start < 0 {
            let t: isize = len as isize + start;
            if t < 0 {
                0
            } else {
                t as usize
            }
        } else {
            start as usize
        };
        let hi_plus: usize = if stop < 0 {
            let t: isize = len as isize + stop;
            if t < 0 {
                0
            } else {
                t as usize + 1
            }
        } else if stop >= len as isize {
            len
        } else {
            stop as usize + 1
        };
        let mut out: Vec<Id> = Vec::new();
        if lo >= len || hi_plus <= lo {
            proof {
                if stop >= 0 && stop < len as int && resolve_rank(stop as int, len as int) < 0 {
                    assert(false);
                }
            }
            return out;
        }
        let mut j: usize = lo;
        while j < hi_plus
            invariant
                lo <= j <= hi_plus <= self@.len(),
                out@ =~= entry_ids(self@).subrange(lo as int, j as int),
            decreases hi_plus - j,
        {
            out.push(self.entries[j].0);
            proof {
                assert(entry_ids(self@)[j as int] == self@[j as int].0);
                assert(out@ =~= entry_ids(self@).subrange(lo as int, j + 1));
            }
            j += 1;
        }
        proof {
            assert(out@ =~= spec_range(self@, start as int, stop as int));
        }
        out
    }
}

/// Removing one entry keeps rank order.
proof fn lemma_remove_keeps_sorted(s: Seq<(Id, i64)>, i: int)
    requires
        scores_sorted(s),
        0 <= i < s.len(),
    ensures
        scores_sorted(s.remove(i)),
{
    s.remove_ensures(i);
    let t = s.remove(i);
    assert forall|a: int, b: int| 0 <= a < b < t.len() implies #[trigger] t[a].1
        <= #[trigger] t[b].1 by {
        if a < i {
            assert(t[a] == s[a]);
        } else {
            assert(t[a] == s[a + 1]);
        }
        if b < i {
            assert(t[b] == s[b]);
        } else {
            assert(t[b] == s[b + 1]);
        }
    }
}

/// One step of a first-occurrence scan for a rank.
proof fn lemma_score_skip_step(s: Seq<(Id, i64)>, id: Id, j: int)
    requires
        0 <= j < s.len(),
        s[j].0 != id,
    ensures
        spec_score_of(s.skip(j), id) == spec_score_of(s.skip(j + 1), id),
{
    assert(s.skip(j)[0] == s[j]);
    assert(s.skip(j).drop_first() =~= s.skip(j + 1));
}

/// One step of a first-occurrence scan for an index.
proof fn lemma_find_skip_step(s: Seq<(Id, i64)>, id: Id, j: int)
    requires
        0 <= j < s.len(),
        s[j].0 != id,
    ensures
        spec_find(s.skip(j), id) == match spec_find(s.skip(j + 1), id) {
            Some(i) => Some(i + 1),
            None => None::<int>,
        },
{
    assert(s.skip(j)[0] == s[j]);
    assert(s.skip(j).drop_first() =~= s.skip(j + 1));
}

} // verus!
