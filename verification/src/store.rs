//! The object store.
//!
//! The store composes the field mapper and the ordering index over the
//! state a backing engine would hold for one record type: the ordering
//! entries and one field-bag per record instance.  Inserting resolves an
//! identifier (minting one when the caller supplies none), appends it to
//! the ordering index and writes every flattened field into the instance's
//! bag; removal drops the ordering entries and the bag together; an edit
//! writes only the supplied fields; reads of an absent instance give an
//! empty bag, never an error.

use vstd::prelude::*;
use crate::GlassError;
use crate::ident::Id;
use crate::index::OrderingIndex;
use crate::index::entry_ids;
use crate::index::insert_pos;
use crate::index::keeps;
use crate::index::lemma_insert_pos_properties;
use crate::index::scores_sorted;
use crate::index::spec_append;
use crate::index::spec_range;
use crate::index::spec_remove_id;
use crate::rainfusion::Mod;
use crate::rainfusion::all_present;
use crate::rainfusion::field_first;
use crate::rainfusion::field_lookup;
use crate::rainfusion::lemma_field_first_skip_step;
use crate::rainfusion::spec_flatten;
use crate::rainfusion::spec_unflatten;

verus! {

/// The per-record-type store state: the index name, the ordering index,
/// and one field-bag per instance.
pub struct Store {
    index_name: String,
    order: OrderingIndex,
    bags: Vec<(Id, Vec<(String, String)>)>,
}

/// The mathematical value of the bag table.
pub open spec fn bags_model(b: Seq<(Id, Vec<(String, String)>)>) -> Seq<
    (Id, Seq<(Seq<char>, Seq<char>)>),
> {
    Seq::new(b.len(), |i: int| (b[i].0, b[i].1.deep_view()))
}

/// The identifiers owning a bag, in table order.
pub open spec fn bag_ids(bags: Seq<(Id, Seq<(Seq<char>, Seq<char>)>)>) -> Seq<Id> {
    bags.map_values(|e: (Id, Seq<(Seq<char>, Seq<char>)>)| e.0)
}

/// No identifier owns two bags.
pub open spec fn unique_ids(bags: Seq<(Id, Seq<(Seq<char>, Seq<char>)>)>) -> bool {
    forall|i: int, j: int| 0 <= i < j < bags.len() ==> #[trigger] bags[i].0 != #[trigger] bags[j].0
}

/// The position of an identifier's bag, if it has one.
pub open spec fn bags_find(bags: Seq<(Id, Seq<(Seq<char>, Seq<char>)>)>, id: Id) -> Option<int>
    decreases bags.len(),
{
    if bags.len() == 0 {
        None
    } else if bags[0].0 == id {
        Some(0)
    } else {
        match bags_find(bags.drop_first(), id) {
            Some(i) => Some(i + 1),
            None => None,
        }
    }
}

/// What a retrieve returns: the identifier's bag, or an empty mapping when
/// it has none.
pub open spec fn spec_retrieve_bag(bags: Seq<(Id, Seq<(Seq<char>, Seq<char>)>)>, id: Id) -> Seq<
    (Seq<char>, Seq<char>),
> {
    match bags_find(bags, id) {
        Some(k) => bags[k].1,
        None => Seq::empty(),
    }
}

/// One field write into a bag: the field's entry is overwritten in place,
/// or appended when the field was absent.
pub open spec fn bag_set(bag: Seq<(Seq<char>, Seq<char>)>, f: Seq<char>, v: Seq<char>) -> Seq<
    (Seq<char>, Seq<char>),
> {
    match field_first(bag, f) {
        Some(k) => bag.update(k, (f, v)),
        None => bag.push((f, v)),
    }
}

/// A run of field writes, in order.
pub open spec fn bag_set_all(
    bag: Seq<(Seq<char>, Seq<char>)>,
    pairs: Seq<(Seq<char>, Seq<char>)>,
) -> Seq<(Seq<char>, Seq<char>)>
    decreases pairs.len(),
{
    if pairs.len() == 0 {
        bag
    } else {
        bag_set_all(bag_set(bag, pairs[0].0, pairs[0].1), pairs.drop_first())
    }
}

/// The bag table after writing fields under an identifier: its bag is
/// updated in place, or a bag is created when it had none.
pub open spec fn spec_upsert(
    bags: Seq<(Id, Seq<(Seq<char>, Seq<char>)>)>,
    id: Id,
    pairs: Seq<(Seq<char>, Seq<char>)>,
) -> Seq<(Id, Seq<(Seq<char>, Seq<char>)>)> {
    match bags_find(bags, id) {
        Some(k) => bags.update(k, (id, bag_set_all(bags[k].1, pairs))),
        None => bags.push((id, bag_set_all(Seq::empty(), pairs))),
    }
}

/// The predicate keeping the bags of other identifiers.
pub open spec fn keeps_bag(id: Id) -> spec_fn((Id, Seq<(Seq<char>, Seq<char>)>)) -> bool {
    |e: (Id, Seq<(Seq<char>, Seq<char>)>)| e.0 != id
}

/// The bag table after a removal: the identifier's bag goes.
pub open spec fn spec_bags_remove(bags: Seq<(Id, Seq<(Seq<char>, Seq<char>)>)>, id: Id) -> Seq<
    (Id, Seq<(Seq<char>, Seq<char>)>),
> {
    bags.filter(keeps_bag(id))
}

impl Store {
    /// The record type's index name.
    pub closed spec fn spec_name(self) -> Seq<char> {
        self.index_name@
    }

    /// The ordering entries.
    pub closed spec fn spec_order(self) -> Seq<(Id, i64)> {
        self.order@
    }

    /// The bag table.
    pub closed spec fn spec_bags(self) -> Seq<(Id, Seq<(Seq<char>, Seq<char>)>)> {
        bags_model(self.bags@)
    }

    /// The store invariant: the ordering index is rank-sorted and no
    /// identifier owns two bags.
    pub open spec fn wf(self) -> bool {
        &&& crate::index::scores_sorted(self.spec_order())
        &&& unique_ids(self.spec_bags())
    }

    /// The joint invariant of the ordering index and the bag table: each
    /// names exactly the identifiers the other does.
    pub open spec fn paired(self) -> bool {
        forall|id: Id|
            #![trigger entry_ids(self.spec_order()).contains(id)]
            #![trigger bag_ids(self.spec_bags()).contains(id)]
            entry_ids(self.spec_order()).contains(id) <==> bag_ids(self.spec_bags()).contains(id)
    }

    /// An empty store for a record type.
    pub fn new(index_name: String) -> (r: Store)
        ensures
            r.spec_name() == index_name@,
            r.spec_order() == Seq::<(Id, i64)>::empty(),
            r.spec_bags() =~= Seq::<(Id, Seq<(Seq<char>, Seq<char>)>)>::empty(),
            r.wf(),
            r.paired(),
    {
        let r = Store { index_name, order: OrderingIndex::new(), bags: Vec::new() };
        proof {
            assert(r.spec_bags() =~= Seq::<(Id, Seq<(Seq<char>, Seq<char>)>)>::empty());
            assert(entry_ids(r.spec_order()) =~= Seq::<Id>::empty());
            assert(bag_ids(r.spec_bags()) =~= Seq::<Id>::empty());
        }
        r
    }

    /// The record type's index name.
    pub fn index_name(&self) -> (r: &str)
        ensures
            r@ == self.spec_name(),
    {
        self.index_name.as_str()
    }

    /// How many ordering entries the index holds.
    pub fn count(&self) -> (r: usize)
        ensures
            r == self.spec_order().len(),
    {
        self.order.cardinality()
    }

    /// The identifier's field-bag, or an empty mapping when it has none.
    pub fn retrieve(&self, id: Id) -> (r: Vec<(String, String)>)
        ensures
            r.deep_view() == spec_retrieve_bag(self.spec_bags(), id),
    {
        let ghost bm = self.spec_bags();
        let mut j: usize = 0;
        proof {
            assert(bm.skip(0) =~= bm);
        }
        while j < self.bags.len()
            invariant
                bm == self.spec_bags(),
                bm.len() == self.bags@.len(),
                0 <= j <= bm.len(),
                bags_find(bm, id) == match bags_find(bm.skip(j as int), id) {
                    Some(i) => Some(i + j as int),
                    None => None::<int>,
                },
            decreases bm.len() - j,
        {
            let entry = &self.bags[j];
            proof {
                assert(bm.skip(j as int)[0] == bm[j as int]);
            }
            if entry.0 == id {
                proof {
                    assert(bags_find(bm, id) == Some(j as int));
                }
                let r = copy_bag(&entry.1);
                proof {
                    assert(r.deep_view() == bm[j as int].1);
                }
                return r;
            }
            proof {
                lemma_bags_find_skip_step(bm, id, j as int);
            }
            j += 1;
        }
        proof {
            assert(bm.skip(bm.len() as int).len() == 0);
            assert(bags_find(bm, id) is None);
        }
        Vec::new()
    }

    /// The identifier's record, read back from its bag.  An absent bag
    /// reads back as the all-default record.
    pub fn retrieve_typed(&self, id: Id) -> (r: Mod)
        ensures
            r@ == spec_unflatten(spec_retrieve_bag(self.spec_bags(), id)),
            bags_find(self.spec_bags(), id) is None ==> r@ == crate::rainfusion::empty_model(),
    {
        Mod::from_field_map(self.retrieve(id))
    }

    /// Insert a record: resolve the identifier (minting one when none is
    /// supplied), append it to the ordering index at rank count-plus-one,
    /// and write every flattened field into its bag.  The `Result` is the
    /// operation's interface shape — `EncodingFailure` is what a failing
    /// serialization capability would surface — but this record type's
    /// fields always encode, so the insert always succeeds.  A record
    /// whose fields are all present reads back unchanged under a fresh
    /// identifier.
    pub fn insert(&mut self, record: &Mod, id: Option<Id>) -> (r: Result<Id, GlassError>)
        requires
            old(self).wf(),
            old(self).spec_order().len() < 0x7fff_ffff_ffff_ffff,
        ensures
            r is Ok,
            match r {
                Ok(rid) => {
                    &&& (id matches Some(i) ==> rid == i)
                    &&& (id is None ==> !rid.is_nil())
                    &&& final(self).spec_name() == old(self).spec_name()
                    &&& final(self).spec_order() == spec_append(old(self).spec_order(), rid)
                    &&& final(self).spec_order().len() == old(self).spec_order().len() + 1
                    &&& final(self).spec_bags() == spec_upsert(
                        old(self).spec_bags(),
                        rid,
                        spec_flatten(record@),
                    )
                    &&& final(self).wf()
                    &&& (old(self).paired() ==> final(self).paired())
                    &&& (!bag_ids(old(self).spec_bags()).contains(rid) && all_present(record@)
                        ==> spec_unflatten(spec_retrieve_bag(final(self).spec_bags(), rid))
                        == record@)
                },
                Err(e) => e == GlassError::EncodingFailure && *final(self) == *old(self),
            },
    {
        let rid: Id = match id {
            Some(i) => i,
            None => {
                let f = Id::fresh();
                proof {
                    Id::lemma_fresh_not_nil(f);
                }
                f
            }
        };
        let pairs: Vec<(String, String)> = match record.convert_to_field_map() {
            Ok(p) => p,
            Err(e) => {
                return Err(e);
            }
        };
        self.order.append(rid);
        let ghost bags0 = self.spec_bags();
        let ghost pdv = pairs.deep_view();
        self.upsert_bag(rid, pairs);
        proof {
            if old(self).paired() {
                lemma_append_ids(old(self).spec_order(), rid);
                lemma_upsert_ids(bags0, rid, pdv);
                assert forall|x: Id| entry_ids(self.spec_order()).contains(x) <==> bag_ids(
                    self.spec_bags(),
                ).contains(x) by {
                    assert(entry_ids(self.spec_order()).contains(x) <==> (x == rid || entry_ids(
                        old(self).spec_order(),
                    ).contains(x)));
                    assert(bag_ids(self.spec_bags()).contains(x) <==> (x == rid || bag_ids(
                        bags0,
                    ).contains(x)));
                }
            }
            if !bag_ids(bags0).contains(rid) && all_present(record@) {
                lemma_find_absent(bags0, rid);
                assert(self.spec_bags() == bags0.push((rid, bag_set_all(Seq::empty(), pdv))));
                lemma_bags_find_in_push(bags0, rid, bag_set_all(Seq::empty(), pdv));
                crate::rainfusion::lemma_flatten_names_distinct(record@);
                lemma_set_all_fresh(pdv);
                assert(spec_retrieve_bag(self.spec_bags(), rid) == pdv);
            }
        }
        Ok(rid)
    }

    /// Remove a record: its ordering entries and its bag go together.
    /// Removing an absent identifier is a no-op, not an error.
    pub fn remove(&mut self, id: Id)
        requires
            old(self).wf(),
        ensures
            final(self).spec_name() == old(self).spec_name(),
            final(self).spec_order() == spec_remove_id(old(self).spec_order(), id),
            final(self).spec_bags() == spec_bags_remove(old(self).spec_bags(), id),
            final(self).wf(),
            old(self).paired() ==> final(self).paired(),
    {
        self.order.remove(id);
        let ghost bm = self.spec_bags();
        let mut kept: Vec<(Id, Vec<(String, String)>)> = Vec::new();
        let mut j: usize = 0;
        while j < self.bags.len()
            invariant
                bm == self.spec_bags(),
                bm.len() == self.bags@.len(),
                0 <= j <= bm.len(),
                bags_model(kept@) =~~= bm.subrange(0, j as int).filter(keeps_bag(id)),
                unique_ids(bm),
            decreases bm.len() - j,
        {
            let ghost pre = bm.subrange(0, j as int);
            let entry = &self.bags[j];
            let keep: bool = !(entry.0 == id);
            proof {
                assert(bm[j as int] == (entry.0, entry.1.deep_view()));
                Seq::filter_distributes_over_add(pre, seq![bm[j as int]], keeps_bag(id));
                assert(pre + seq![bm[j as int]] =~= bm.subrange(0, j as int + 1));
                reveal_with_fuel(Seq::filter, 2);
                assert(seq![bm[j as int]].drop_last()
                    =~= Seq::<(Id, Seq<(Seq<char>, Seq<char>)>)>::empty());
            }
            if keep {
                let ghost prevk = kept@;
                let copied: Vec<(String, String)> = copy_bag(&entry.1);
                kept.push((entry.0, copied));
                proof {
                    assert(bags_model(kept@) =~~= bags_model(prevk).push(
                        (entry.0, entry.1.deep_view()),
                    ));
                }
            }
            j += 1;
        }
        proof {
            assert(bm.subrange(0, bm.len() as int) =~= bm);
        }
        self.bags = kept;
        proof {
            lemma_filter_unique(bm, id);
            if old(self).paired() {
                lemma_remove_ids(old(self).spec_order(), id);
                lemma_bags_remove_ids(bm, id);
                assert forall|x: Id| entry_ids(self.spec_order()).contains(x) <==> bag_ids(
                    self.spec_bags(),
                ).contains(x) by {
                    assert(entry_ids(self.spec_order()).contains(x) <==> (x != id && entry_ids(
                        old(self).spec_order(),
                    ).contains(x)));
                    assert(bag_ids(self.spec_bags()).contains(x) <==> (x != id && bag_ids(
                        bm,
                    ).contains(x)));
                }
            }
        }
    }

    /// Write only the supplied fields of the identifier's bag; everything
    /// else, the ordering entries included, is untouched.
    pub fn edit(&mut self, id: Id, changes: Vec<(String, String)>)
        requires
            old(self).wf(),
        ensures
            final(self).spec_name() == old(self).spec_name(),
            final(self).spec_order() == old(self).spec_order(),
            final(self).spec_bags() == spec_upsert(old(self).spec_bags(), id, changes.deep_view()),
            final(self).wf(),
            old(self).paired() && bag_ids(old(self).spec_bags()).contains(id)
                ==> final(self).paired(),
    {
        let ghost bags0 = self.spec_bags();
        let ghost cdv = changes.deep_view();
        self.upsert_bag(id, changes);
        proof {
            if old(self).paired() && bag_ids(bags0).contains(id) {
                lemma_upsert_ids(bags0, id, cdv);
                assert forall|x: Id| entry_ids(self.spec_order()).contains(x) <==> bag_ids(
                    self.spec_bags(),
                ).contains(x) by {
                    assert(bag_ids(self.spec_bags()).contains(x) <==> (x == id || bag_ids(
                        bags0,
                    ).contains(x)));
                }
            }
        }
    }

    /// Fold a run of field writes into the identifier's bag, creating the
    /// bag when it had none.
    fn upsert_bag(&mut self, id: Id, pairs: Vec<(String, String)>)
        requires
            unique_ids(old(self).spec_bags()),
        ensures
            final(self).index_name == old(self).index_name,
            final(self).order == old(self).order,
            final(self).spec_bags() == spec_upsert(old(self).spec_bags(), id, pairs.deep_view()),
            unique_ids(final(self).spec_bags()),
    {
        let ghost bm = old(self).spec_bags();
        let ghost pdv = pairs.deep_view();
        let mut j: usize = 0;
        proof {
            assert(bm.skip(0) =~= bm);
        }
        while j < self.bags.len()
            invariant
                self == old(self),
                bm == self.spec_bags(),
                bm == old(self).spec_bags(),
                unique_ids(bm),
                pdv == pairs.deep_view(),
                bm.len() == self.bags@.len(),
                0 <= j <= bm.len(),
                bags_find(bm, id) == match bags_find(bm.skip(j as int), id) {
                    Some(i) => Some(i + j as int),
                    None => None::<int>,
                },
            decreases bm.len() - j,
        {
            let found: bool = {
                let entry = &self.bags[j];
                proof {
                    assert(bm.skip(j as int)[0] == bm[j as int]);
                }
                entry.0 == id
            };
            if found {
                proof {
                    assert(bags_find(bm, id) == Some(j as int));
                }
                let (bid, mut bag) = self.bags.remove(j);
                let ghost bag0 = bag.deep_view();
                set_fields(&mut bag, &pairs);
                self.bags.insert(j, (bid, bag));
                proof {
                    old(self).bags@.remove_ensures(j as int);
                    old(self).bags@.remove(j as int).insert_ensures(j as int, (bid, bag));
                    assert(self.bags@ =~= old(self).bags@.update(
                        j as int,
                        (bid, bag),
                    ));
                    assert(bid == id);
                    assert(bag.deep_view() == bag_set_all(bag0, pdv));
                    assert(self.spec_bags() =~~= bm.update(
                        j as int,
                        (id, bag_set_all(bag0, pdv)),
                    ));
                    assert(unique_ids(self.spec_bags())) by {
                        assert(forall|i: int| 0 <= i < bm.len() && i != j
                            ==> (#[trigger] self.spec_bags()[i]).0 == bm[i].0);
                        assert(self.spec_bags()[j as int].0 == bm[j as int].0);
                    }
                }
                return ;
            }
            proof {
                lemma_bags_find_skip_step(bm, id, j as int);
            }
            j += 1;
        }
        proof {
            assert(bm.skip(bm.len() as int).len() == 0);
            assert(bags_find(bm, id) is None);
        }
        let mut bag: Vec<(String, String)> = Vec::new();
        proof {
            assert(bag.deep_view() =~= Seq::<(Seq<char>, Seq<char>)>::empty());
        }
        set_fields(&mut bag, &pairs);
        let ghost prevb = self.bags@;
        self.bags.push((id, bag));
        proof {
            assert(bag.deep_view() == bag_set_all(Seq::empty(), pdv));
            assert(self.bags@ == prevb.push((id, bag)));
            assert(self.spec_bags() =~~= bm.push((id, bag_set_all(Seq::empty(), pdv))));
            assert(unique_ids(self.spec_bags())) by {
                lemma_find_absent_converse(bm, id);
                assert(forall|i: int| 0 <= i < bm.len()
                    ==> #[trigger] self.spec_bags()[i] == bm[i]);
            }
        }
    }
}

/// The rows of a plain enumeration: each identifier with its bag.
pub open spec fn spec_rows(bags: Seq<(Id, Seq<(Seq<char>, Seq<char>)>)>, w: Seq<Id>) -> Seq<
    (Id, Seq<(Seq<char>, Seq<char>)>),
> {
    w.map_values(|id: Id| (id, spec_retrieve_bag(bags, id)))
}

/// The rows of a page: each identifier with its bag, and an explicit
/// nil-identifier sentinel row right after the index's last identifier,
/// signalling that no further pages follow.
pub open spec fn spec_page_rows(
    bags: Seq<(Id, Seq<(Seq<char>, Seq<char>)>)>,
    last: Id,
    w: Seq<Id>,
) -> Seq<(Id, Seq<(Seq<char>, Seq<char>)>)>
    decreases w.len(),
{
    if w.len() == 0 {
        Seq::empty()
    } else {
        let head: Seq<(Id, Seq<(Seq<char>, Seq<char>)>)> = if w[0] == last {
            seq![
                (w[0], spec_retrieve_bag(bags, w[0])),
                (Id::spec_nil(), Seq::<(Seq<char>, Seq<char>)>::empty()),
            ]
        } else {
            seq![(w[0], spec_retrieve_bag(bags, w[0]))]
        };
        head + spec_page_rows(bags, last, w.drop_first())
    }
}

/// The predicate keeping every row but the sentinel ones.
pub open spec fn real_row() -> spec_fn((Id, Seq<(Seq<char>, Seq<char>)>)) -> bool {
    |r: (Id, Seq<(Seq<char>, Seq<char>)>)| r.0 != Id::spec_nil()
}

/// A row run with its sentinel markers dropped.
pub open spec fn strip_sentinels(rows: Seq<(Id, Seq<(Seq<char>, Seq<char>)>)>) -> Seq<
    (Id, Seq<(Seq<char>, Seq<char>)>),
> {
    rows.filter(real_row())
}

impl Store {
    /// The first identifier in rank order, or the nil sentinel when the
    /// index is empty.
    pub fn first(&self) -> (r: Id)
        ensures
            r == crate::index::spec_first(self.spec_order()),
            self.spec_order().len() == 0 ==> r == Id::spec_nil(),
    {
        self.order.first()
    }

    /// The last identifier in rank order, or the nil sentinel when the
    /// index is empty.
    pub fn last(&self) -> (r: Id)
        ensures
            r == crate::index::spec_last(self.spec_order()),
            self.spec_order().len() == 0 ==> r == Id::spec_nil(),
    {
        self.order.last()
    }

    /// The page of a 1-based page number: the rows of the rank window
    /// `[8(n-1), 8n-1]`, with the sentinel row appended after the index's
    /// last identifier.
    pub open spec fn spec_page(self, n: int) -> Seq<(Id, Seq<(Seq<char>, Seq<char>)>)> {
        spec_page_rows(
            self.spec_bags(),
            crate::index::spec_last(self.spec_order()),
            crate::index::spec_range(self.spec_order(), 8 * (n - 1), 8 * n - 1),
        )
    }

    /// The full enumeration: every identifier in rank order with its bag.
    pub open spec fn spec_all_rows(self) -> Seq<(Id, Seq<(Seq<char>, Seq<char>)>)> {
        spec_rows(self.spec_bags(), entry_ids(self.spec_order()))
    }

    /// Fetch one page of records.
    pub fn page(&self, number: isize) -> (r: Vec<(Id, Vec<(String, String)>)>)
        requires
            self.spec_order().len() <= isize::MAX,
            isize::MIN <= 8 * (number as int - 1),
            8 * number as int - 1 <= isize::MAX,
        ensures
            bags_model(r@) == self.spec_page(number as int),
    {
        let (start, stop) = crate::commands::page_window(number);
        let ids: Vec<Id> = self.order.range(start, stop);
        let last: Id = self.order.last();
        let ghost bm = self.spec_bags();
        let ghost w = ids@;
        let mut out: Vec<(Id, Vec<(String, String)>)> = Vec::new();
        let mut j: usize = 0;
        proof {
            assert(w.subrange(0, 0) =~= Seq::<Id>::empty());
            assert(bags_model(out@) =~~= spec_page_rows(bm, last, w.subrange(0, 0)));
        }
        while j < ids.len()
            invariant
                bm == self.spec_bags(),
                w == ids@,
                last == crate::index::spec_last(self.spec_order()),
                0 <= j <= w.len(),
                bags_model(out@) == spec_page_rows(bm, last, w.subrange(0, j as int)),
            decreases w.len() - j,
        {
            let wid: Id = ids[j];
            let ghost prev = out@;
            let bag: Vec<(String, String)> = self.retrieve(wid);
            out.push((wid, bag));
            proof {
                assert(bags_model(out@) =~~= bags_model(prev).push(
                    (wid, spec_retrieve_bag(bm, wid)),
                ));
            }
            if wid == last {
                let ghost prev2 = out@;
                out.push((Id::nil(), Vec::new()));
                proof {
                    assert(bags_model(out@) =~~= bags_model(prev2).push(
                        (Id::spec_nil(), Seq::<(Seq<char>, Seq<char>)>::empty()),
                    ));
                }
            }
            proof {
                assert(w.subrange(0, j + 1) =~= w.subrange(0, j as int).push(w[j as int]));
                lemma_page_rows_snoc(bm, last, w.subrange(0, j as int), w[j as int]);
            }
            j += 1;
        }
        proof {
            assert(w.subrange(0, w.len() as int) =~= w);
        }
        out
    }

    /// Fetch every record in rank order.
    pub fn all(&self) -> (r: Vec<(Id, Vec<(String, String)>)>)
        requires
            self.spec_order().len() <= isize::MAX,
        ensures
            bags_model(r@) == self.spec_all_rows(),
    {
        let ids: Vec<Id> = self.order.range(0, -1);
        proof {
            assert(ids@ =~= entry_ids(self.spec_order()));
        }
        let ghost bm = self.spec_bags();
        let ghost w = ids@;
        let mut out: Vec<(Id, Vec<(String, String)>)> = Vec::new();
        let mut j: usize = 0;
        while j < ids.len()
            invariant
                bm == self.spec_bags(),
                w == ids@,
                0 <= j <= w.len(),
                bags_model(out@) == spec_rows(bm, w.subrange(0, j as int)),
            decreases w.len() - j,
        {
            let wid: Id = ids[j];
            let ghost prev = out@;
            let bag: Vec<(String, String)> = self.retrieve(wid);
            out.push((wid, bag));
            proof {
                assert(bags_model(out@) =~~= bags_model(prev).push(
                    (wid, spec_retrieve_bag(bm, wid)),
                ));
                assert(spec_rows(bm, w.subrange(0, j + 1)) =~= spec_rows(
                    bm,
                    w.subrange(0, j as int),
                ).push((w[j as int], spec_retrieve_bag(bm, w[j as int]))));
            }
            j += 1;
        }
        proof {
            assert(w.subrange(0, w.len() as int) =~= w);
        }
        out
    }

    /// How pages 1 through `k` concatenate, in page order.
    pub open spec fn spec_pages_concat(self, k: int) -> Seq<(Id, Seq<(Seq<char>, Seq<char>)>)>
        decreases k,
    {
        if k <= 0 {
            Seq::empty()
        } else {
            self.spec_pages_concat(k - 1) + self.spec_page(k)
        }
    }
}

/// Extending a page window by one identifier appends its rows.
proof fn lemma_page_rows_snoc(
    bags: Seq<(Id, Seq<(Seq<char>, Seq<char>)>)>,
    last: Id,
    w: Seq<Id>,
    x: Id,
)
    ensures
        spec_page_rows(bags, last, w.push(x)) == spec_page_rows(bags, last, w) + (if x == last {
            seq![
                (x, spec_retrieve_bag(bags, x)),
                (Id::spec_nil(), Seq::<(Seq<char>, Seq<char>)>::empty()),
            ]
        } else {
            seq![(x, spec_retrieve_bag(bags, x))]
        }),
    decreases w.len(),
{
    reveal_with_fuel(spec_page_rows, 3);
    let tail: Seq<(Id, Seq<(Seq<char>, Seq<char>)>)> = if x == last {
        seq![(x, spec_retrieve_bag(bags, x)), (Id::spec_nil(), Seq::<(Seq<char>, Seq<char>)>::empty())]
    } else {
        seq![(x, spec_retrieve_bag(bags, x))]
    };
    if w.len() == 0 {
        assert(w.push(x)[0] == x);
        assert(w.push(x).drop_first() =~= Seq::<Id>::empty());
        assert(spec_page_rows(bags, last, w.push(x)) =~~= tail);
        assert(spec_page_rows(bags, last, w) + tail =~~= tail);
    } else {
        assert(w.push(x)[0] == w[0]);
        assert(w.push(x).drop_first() =~= w.drop_first().push(x));
        lemma_page_rows_snoc(bags, last, w.drop_first(), x);
        assert(spec_page_rows(bags, last, w.push(x)) =~~= spec_page_rows(bags, last, w) + tail);
    }
}

/// The object count of a store's index; mirrors asking the backing engine
/// for the ordering structure's cardinality.
pub fn current_object_count(store: &Store) -> (r: usize)
    ensures
        r == store.spec_order().len(),
{
    store.count()
}

/// Copy a bag pair by pair.
fn copy_bag(src: &Vec<(String, String)>) -> (r: Vec<(String, String)>)
    ensures
        r.deep_view() == src.deep_view(),
{
    let mut out: Vec<(String, String)> = Vec::new();
    let mut i: usize = 0;
    while i < src.len()
        invariant
            0 <= i <= src@.len(),
            out.deep_view() =~~= src.deep_view().subrange(0, i as int),
        decreases src@.len() - i,
    {
        let entry = &src[i];
        out.push((entry.0.clone(), entry.1.clone()));
        proof {
            assert(out.deep_view() =~~= src.deep_view().subrange(0, i + 1));
        }
        i += 1;
    }
    proof {
        assert(src.deep_view().subrange(0, src@.len() as int) =~= src.deep_view());
    }
    out
}

/// Apply a run of field writes to a bag.
fn set_fields(bag: &mut Vec<(String, String)>, pairs: &Vec<(String, String)>)
    ensures
        final(bag).deep_view() == bag_set_all(old(bag).deep_view(), pairs.deep_view()),
{
    let ghost pdv = pairs.deep_view();
    let ghost b0 = bag.deep_view();
    let mut i: usize = 0;
    proof {
        assert(pdv.skip(0) =~= pdv);
    }
    while i < pairs.len()
        invariant
            pdv == pairs.deep_view(),
            pdv.len() == pairs@.len(),
            0 <= i <= pdv.len(),
            bag_set_all(b0, pdv) == bag_set_all(bag.deep_view(), pdv.skip(i as int)),
        decreases pdv.len() - i,
    {
        let entry = &pairs[i];
        proof {
            assert(pdv.skip(i as int)[0] == pdv[i as int]);
            assert(pdv.skip(i as int).drop_first() =~= pdv.skip(i as int + 1));
        }
        set_one_field(bag, entry.0.clone(), entry.1.clone());
        i += 1;
    }
    proof {
        assert(pdv.skip(pdv.len() as int).len() == 0);
    }
}

/// Write one field into a bag: overwrite its first entry, or append.
fn set_one_field(bag: &mut Vec<(String, String)>, field: String, value: String)
    ensures
        final(bag).deep_view() == bag_set(old(bag).deep_view(), field@, value@),
{
    let ghost bdv = old(bag).deep_view();
    let mut j: usize = 0;
    proof {
        assert(bdv.skip(0) =~= bdv);
    }
    while j < bag.len()
        invariant
            bag == old(bag),
            bdv == bag.deep_view(),
            bdv.len() == bag@.len(),
            0 <= j <= bdv.len(),
            field_first(bdv, field@) == match field_first(bdv.skip(j as int), field@) {
                Some(i) => Some(i + j as int),
                None => None::<int>,
            },
        decreases bdv.len() - j,
    {
        let hit: bool = {
            let entry = &bag[j];
            proof {
                assert(bdv.skip(j as int)[0] == bdv[j as int]);
            }
            entry.0 == field
        };
        if hit {
            proof {
                assert(field_first(bdv, field@) == Some(j as int));
            }
            bag.set(j, (field, value));
            proof {
                assert(bag.deep_view() =~~= bdv.update(j as int, (field@, value@)));
            }
            return ;
        }
        proof {
            lemma_field_first_skip_step(bdv, field@, j as int);
        }
        j += 1;
    }
    proof {
        assert(bdv.skip(bdv.len() as int).len() == 0);
        assert(field_first(bdv, field@) is None);
    }
    let ghost prevb = bag@;
    bag.push((field, value));
    proof {
        assert(bag.deep_view() =~~= bdv.push((field@, value@)));
    }
}

/// One step of a first-occurrence scan over the bag table.
proof fn lemma_bags_find_skip_step(bags: Seq<(Id, Seq<(Seq<char>, Seq<char>)>)>, id: Id, j: int)
    requires
        0 <= j < bags.len(),
        bags[j].0 != id,
    ensures
        bags_find(bags.skip(j), id) == match bags_find(bags.skip(j + 1), id) {
            Some(i) => Some(i + 1),
            None => None::<int>,
        },
{
    assert(bags.skip(j)[0] == bags[j]);
    assert(bags.skip(j).drop_first() =~= bags.skip(j + 1));
}

/// One field write into a bag/// An identifier outside the bag table is found nowhere in it.
pub proof fn lemma_find_absent(bags: Seq<(Id, Seq<(Seq<char>, Seq<char>)>)>, id: Id)
    requires
        !bag_ids(bags).contains(id),
    ensures
        bags_find(bags, id) is None,
    decreases bags.len(),
{
    if bags.len() == 0 {
    } else {
        assert(bag_ids(bags)[0] == bags[0].0);
        assert(bags[0].0 != id);
        assert(!bag_ids(bags.drop_first()).contains(id)) by {
            assert(bag_ids(bags.drop_first()) =~= bag_ids(bags).drop_first());
            if bag_ids(bags.drop_first()).contains(id) {
                let k = choose|k: int|
                    0 <= k < bag_ids(bags.drop_first()).len() && bag_ids(bags.drop_first())[k]
                        == id;
                assert(bag_ids(bags)[k + 1] == id);
            }
        }
        lemma_find_absent(bags.drop_first(), id);
    }
}

/// An identifier found nowhere in the bag table owns no bag in it.
pub proof fn lemma_find_absent_converse(bags: Seq<(Id, Seq<(Seq<char>, Seq<char>)>)>, id: Id)
    requires
        bags_find(bags, id) is None,
    ensures
        forall|i: int| 0 <= i < bags.len() ==> (#[trigger] bags[i]).0 != id,
    decreases bags.len(),
{
    if bags.len() == 0 {
    } else {
        assert(bags[0].0 != id);
        lemma_find_absent_converse(bags.drop_first(), id);
        assert forall|i: int| 0 <= i < bags.len() implies (#[trigger] bags[i]).0 != id by {
            if i > 0 {
                assert(bags.drop_first()[i - 1] == bags[i]);
            }
        }
    }
}

/// A pushed bag is found at the end when its identifier was absent.
pub proof fn lemma_bags_find_in_push(
    bags: Seq<(Id, Seq<(Seq<char>, Seq<char>)>)>,
    id: Id,
    bag: Seq<(Seq<char>, Seq<char>)>,
)
    requires
        bags_find(bags, id) is None,
    ensures
        bags_find(bags.push((id, bag)), id) == Some(bags.len() as int),
        spec_retrieve_bag(bags.push((id, bag)), id) == bag,
    decreases bags.len(),
{
    if bags.len() == 0 {
        assert(bags.push((id, bag))[0] == (id, bag));
    } else {
        assert(bags.push((id, bag))[0] == bags[0]);
        lemma_bags_find_in_push(bags.drop_first(), id, bag);
        assert(bags.push((id, bag)).drop_first() =~= bags.drop_first().push((id, bag)));
    }
}

/// Writing distinct fresh fields into an empty bag leaves exactly those
/// fields, in order.
pub proof fn lemma_set_all_fresh(pairs: Seq<(Seq<char>, Seq<char>)>)
    requires
        forall|i: int, j: int| 0 <= i < j < pairs.len()
            ==> (#[trigger] pairs[i]).0 != (#[trigger] pairs[j]).0,
    ensures
        bag_set_all(Seq::empty(), pairs) == pairs,
{
    lemma_set_all_disjoint(Seq::empty(), pairs);
    assert(Seq::<(Seq<char>, Seq<char>)>::empty() + pairs =~= pairs);
}

/// Field names absent from a bag are appended by a run of writes, in
/// order.
pub proof fn lemma_set_all_disjoint(
    bag: Seq<(Seq<char>, Seq<char>)>,
    pairs: Seq<(Seq<char>, Seq<char>)>,
)
    requires
        forall|i: int, j: int| 0 <= i < j < pairs.len()
            ==> (#[trigger] pairs[i]).0 != (#[trigger] pairs[j]).0,
        forall|k: int| 0 <= k < pairs.len() ==> field_first(bag, (#[trigger] pairs[k]).0) is None,
    ensures
        bag_set_all(bag, pairs) == bag + pairs,
    decreases pairs.len(),
{
    if pairs.len() == 0 {
        assert(bag + pairs =~= bag);
    } else {
        let p = pairs[0];
        assert(field_first(bag, p.0) is None);
        assert(bag_set(bag, p.0, p.1) == bag.push(p));
        let bag2 = bag.push(p);
        let rest = pairs.drop_first();
        assert(forall|i: int| 0 <= i < rest.len() ==> #[trigger] rest[i] == pairs[i + 1]);
        assert(forall|k: int| 0 <= k < rest.len()
            ==> field_first(bag2, (#[trigger] rest[k]).0) is None) by {
            assert forall|k: int| 0 <= k < rest.len() implies field_first(
                bag2,
                (#[trigger] rest[k]).0,
            ) is None by {
                assert(rest[k] == pairs[k + 1]);
                assert(rest[k].0 != p.0);
                lemma_field_first_push_other(bag, p, rest[k].0);
            }
        }
        lemma_set_all_disjoint(bag2, rest);
        assert(bag2 + rest =~= bag + pairs);
    }
}

/// Pushing an entry of another field does not create the sought field.
proof fn lemma_field_first_push_other(
    bag: Seq<(Seq<char>, Seq<char>)>,
    p: (Seq<char>, Seq<char>),
    f: Seq<char>,
)
    requires
        field_first(bag, f) is None,
        p.0 != f,
    ensures
        field_first(bag.push(p), f) is None,
    decreases bag.len(),
{
    reveal_with_fuel(field_first, 3);
    if bag.len() == 0 {
        assert(bag.push(p)[0] == p);
        assert(bag.push(p).drop_first() =~= Seq::<(Seq<char>, Seq<char>)>::empty());
    } else {
        assert(bag[0].0 != f);
        assert(field_first(bag.drop_first(), f) is None);
        assert(bag.push(p)[0] == bag[0]);
        lemma_field_first_push_other(bag.drop_first(), p, f);
        assert(bag.push(p).drop_first() =~= bag.drop_first().push(p));
    }
}

/// Filtering one identifier out keeps the other bags unique.
proof fn lemma_filter_unique(bags: Seq<(Id, Seq<(Seq<char>, Seq<char>)>)>, id: Id)
    requires
        unique_ids(bags),
    ensures
        unique_ids(spec_bags_remove(bags, id)),
    decreases bags.len(),
{
    reveal_with_fuel(Seq::filter, 1);
    broadcast use vstd::seq_lib::group_filter_ensures;

    if bags.len() == 0 {
    } else {
        let t = bags.drop_last();
        assert(unique_ids(t)) by {
            assert(forall|i: int| 0 <= i < t.len() ==> #[trigger] t[i] == bags[i]);
        }
        lemma_filter_unique(t, id);
        if keeps_bag(id)(bags.last()) {
            let f = bags.filter(keeps_bag(id));
            assert(f == t.filter(keeps_bag(id)).push(bags.last()));
            assert forall|i: int, j: int| 0 <= i < j < f.len() implies (#[trigger] f[i]).0 != (
            #[trigger] f[j]).0 by {
                if j < f.len() - 1 {
                    assert(f[i] == t.filter(keeps_bag(id))[i]);
                    assert(f[j] == t.filter(keeps_bag(id))[j]);
                    assert(unique_ids(t.filter(keeps_bag(id))));
                } else {
                    assert(f[j] == bags.last());
                    assert(f[i] == t.filter(keeps_bag(id))[i]);
                    assert(t.filter(keeps_bag(id)).contains(f[i]));
                    lemma_filter_element_of(t, keeps_bag(id), i);
                    let k = choose|k: int| 0 <= k < t.len() && t[k] == f[i];
                    assert(t[k] == bags[k]);
                    assert(bags[k].0 != bags[bags.len() - 1].0);
                }
            }
        }
    }
}

/// Every element of a filtered run stands somewhere in the unfiltered one.
proof fn lemma_filter_element_of<A>(s: Seq<A>, pred: spec_fn(A) -> bool, i: int)
    requires
        0 <= i < s.filter(pred).len(),
    ensures
        exists|k: int| 0 <= k < s.len() && s[k] == s.filter(pred)[i],
    decreases s.len(),
{
    reveal_with_fuel(Seq::filter, 1);
    if s.len() == 0 {
    } else {
        let t = s.drop_last();
        let ft = t.filter(pred);
        if i < ft.len() {
            lemma_filter_element_of(t, pred, i);
            let k = choose|k: int| 0 <= k < t.len() && t[k] == ft[i];
            assert(s[k] == s.filter(pred)[i]);
        } else {
            assert(s.filter(pred)[i] == s.last());
            assert(s[s.len() - 1] == s.filter(pred)[i]);
        }
    }
}


/// Filtering keeps a run whose entries all satisfy the predicate.
proof fn lemma_filter_all<A>(s: Seq<A>, pred: spec_fn(A) -> bool)
    requires
        forall|i: int| 0 <= i < s.len() ==> pred(#[trigger] s[i]),
    ensures
        s.filter(pred) == s,
    decreases s.len(),
{
    reveal_with_fuel(Seq::filter, 2);
    if s.len() == 0 {
        assert(s.filter(pred) =~= s);
    } else {
        let t = s.drop_last();
        assert forall|i: int| 0 <= i < t.len() implies pred(#[trigger] t[i]) by {
            assert(t[i] == s[i]);
        }
        lemma_filter_all(t, pred);
        assert(pred(s.last()));
        assert(s.filter(pred) == t.filter(pred).push(s.last()));
        assert(t.push(s.last()) =~= s);
    }
}

/// Cardinality law: inserting a record under a fresh identifier and then
/// removing that identifier restores the ordering entries and the bag
/// table exactly, so the count returns to its pre-insert value and a
/// retrieve of the identifier finds an empty mapping.
pub proof fn lemma_insert_then_remove(
    order: Seq<(Id, i64)>,
    bags: Seq<(Id, Seq<(Seq<char>, Seq<char>)>)>,
    rid: Id,
    pairs: Seq<(Seq<char>, Seq<char>)>,
)
    requires
        scores_sorted(order),
        !entry_ids(order).contains(rid),
        !bag_ids(bags).contains(rid),
    ensures
        spec_remove_id(spec_append(order, rid), rid) == order,
        spec_bags_remove(spec_upsert(bags, rid, pairs), rid) == bags,
        spec_retrieve_bag(spec_bags_remove(spec_upsert(bags, rid, pairs), rid), rid)
            == Seq::<(Seq<char>, Seq<char>)>::empty(),
{
    reveal_with_fuel(Seq::filter, 2);
    let score: i64 = (order.len() + 1) as i64;
    let e = (rid, score);
    let pos = insert_pos(order, score);
    lemma_insert_pos_properties(order, score);
    let ins = spec_append(order, rid);
    assert forall|i: int| 0 <= i < order.len() implies (keeps(rid))(#[trigger] order[i]) by {
        if order[i].0 == rid {
            assert(entry_ids(order)[i] == rid);
        }
    }
    let sub0 = order.subrange(0, pos);
    let sub1 = order.subrange(pos, order.len() as int);
    assert(ins =~= sub0.push(e) + sub1);
    Seq::filter_distributes_over_add(sub0.push(e), sub1, keeps(rid));
    assert(sub0.push(e).drop_last() =~= sub0);
    assert(!(keeps(rid))(e));
    assert(sub0.push(e).filter(keeps(rid)) == sub0.filter(keeps(rid)));
    assert forall|i: int| 0 <= i < sub0.len() implies (keeps(rid))(#[trigger] sub0[i]) by {
        assert(sub0[i] == order[i]);
    }
    assert forall|i: int| 0 <= i < sub1.len() implies (keeps(rid))(#[trigger] sub1[i]) by {
        assert(sub1[i] == order[pos + i]);
    }
    lemma_filter_all(sub0, keeps(rid));
    lemma_filter_all(sub1, keeps(rid));
    assert(spec_remove_id(ins, rid) == sub0 + sub1);
    assert(sub0 + sub1 =~= order);

    lemma_find_absent(bags, rid);
    let nb = (rid, bag_set_all(Seq::empty(), pairs));
    let up = spec_upsert(bags, rid, pairs);
    assert(up == bags.push(nb));
    assert forall|i: int| 0 <= i < bags.len() implies (keeps_bag(rid))(#[trigger] bags[i]) by {
        if bags[i].0 == rid {
            assert(bag_ids(bags)[i] == rid);
        }
    }
    assert(bags.push(nb).drop_last() =~= bags);
    assert(!(keeps_bag(rid))(nb));
    assert(bags.push(nb).filter(keeps_bag(rid)) == bags.filter(keeps_bag(rid)));
    lemma_filter_all(bags, keeps_bag(rid));
    assert(spec_bags_remove(up, rid) == bags);
}

/// The first entry of a field, characterized by its position.
proof fn lemma_field_first_char(bag: Seq<(Seq<char>, Seq<char>)>, f: Seq<char>)
    ensures
        match field_first(bag, f) {
            Some(k) => 0 <= k < bag.len() && bag[k].0 == f && (forall|i: int|
                0 <= i < k ==> (#[trigger] bag[i]).0 != f),
            None => forall|i: int| 0 <= i < bag.len() ==> (#[trigger] bag[i]).0 != f,
        },
    decreases bag.len(),
{
    if bag.len() == 0 {
    } else if bag[0].0 == f {
    } else {
        lemma_field_first_char(bag.drop_first(), f);
        match field_first(bag.drop_first(), f) {
            Some(k0) => {
                assert forall|i: int| 0 <= i < k0 + 1 implies (#[trigger] bag[i]).0 != f by {
                    if i > 0 {
                        assert(bag.drop_first()[i - 1] == bag[i]);
                    }
                }
                assert(bag.drop_first()[k0] == bag[k0 + 1]);
            }
            None => {
                assert forall|i: int| 0 <= i < bag.len() implies (#[trigger] bag[i]).0 != f by {
                    if i > 0 {
                        assert(bag.drop_first()[i - 1] == bag[i]);
                    }
                }
            }
        }
    }
}

/// Two bags with the same field name at every slot place any field at the
/// same slot.
proof fn lemma_field_first_same_names(
    b1: Seq<(Seq<char>, Seq<char>)>,
    b2: Seq<(Seq<char>, Seq<char>)>,
    f: Seq<char>,
)
    requires
        b1.len() == b2.len(),
        forall|i: int| 0 <= i < b1.len() ==> (#[trigger] b1[i]).0 == (#[trigger] b2[i]).0,
    ensures
        field_first(b1, f) == field_first(b2, f),
    decreases b1.len(),
{
    if b1.len() == 0 {
    } else {
        assert(b1[0].0 == b2[0].0);
        assert forall|i: int| 0 <= i < b1.len() - 1 implies (#[trigger] b1.drop_first()[i]).0 == (
        #[trigger] b2.drop_first()[i]).0 by {
            assert(b1.drop_first()[i] == b1[i + 1]);
            assert(b2.drop_first()[i] == b2[i + 1]);
        }
        lemma_field_first_same_names(b1.drop_first(), b2.drop_first(), f);
    }
}

/// Where a pushed entry lands in a field scan.
proof fn lemma_field_first_push(
    bag: Seq<(Seq<char>, Seq<char>)>,
    p: (Seq<char>, Seq<char>),
    f: Seq<char>,
)
    ensures
        field_first(bag.push(p), f) == match field_first(bag, f) {
            Some(k) => Some(k),
            None => if p.0 == f {
                Some(bag.len() as int)
            } else {
                None::<int>
            },
        },
    decreases bag.len(),
{
    reveal_with_fuel(field_first, 3);
    if bag.len() == 0 {
        assert(bag.push(p)[0] == p);
        assert(bag.push(p).drop_first() =~= Seq::<(Seq<char>, Seq<char>)>::empty());
    } else {
        assert(bag.push(p)[0] == bag[0]);
        lemma_field_first_push(bag.drop_first(), p, f);
        assert(bag.push(p).drop_first() =~= bag.drop_first().push(p));
    }
}

/// One write of another field leaves a field's slot and value alone.
proof fn lemma_bag_set_other(bag: Seq<(Seq<char>, Seq<char>)>, g: Seq<char>, v: Seq<char>, f: Seq<char>)
    requires
        g != f,
    ensures
        field_lookup(bag_set(bag, g, v), f) == field_lookup(bag, f),
{
    lemma_field_first_char(bag, g);
    match field_first(bag, g) {
        Some(k) => {
            let b2 = bag.update(k, (g, v));
            assert forall|i: int| 0 <= i < bag.len() implies (#[trigger] bag[i]).0 == (
            #[trigger] b2[i]).0 by {
                if i == k {
                    assert(b2[i].0 == g);
                }
            }
            lemma_field_first_same_names(bag, b2, f);
            lemma_field_first_char(bag, f);
            match field_first(bag, f) {
                Some(m) => {
                    assert(bag[m].0 == f);
                    assert(m != k);
                    assert(b2[m] == bag[m]);
                }
                None => {}
            }
        }
        None => {
            lemma_field_first_push(bag, (g, v), f);
            lemma_field_first_char(bag, f);
            match field_first(bag, f) {
                Some(m) => {
                    assert(bag.push((g, v))[m] == bag[m]);
                }
                None => {}
            }
        }
    }
}

/// A run of writes of other fields leaves a field's value alone.
pub proof fn lemma_set_all_other(
    bag: Seq<(Seq<char>, Seq<char>)>,
    changes: Seq<(Seq<char>, Seq<char>)>,
    f: Seq<char>,
)
    requires
        forall|k: int| 0 <= k < changes.len() ==> (#[trigger] changes[k]).0 != f,
    ensures
        field_lookup(bag_set_all(bag, changes), f) == field_lookup(bag, f),
    decreases changes.len(),
{
    if changes.len() == 0 {
    } else {
        assert(changes[0].0 != f);
        lemma_bag_set_other(bag, changes[0].0, changes[0].1, f);
        assert forall|k: int| 0 <= k < changes.drop_first().len() implies (
        #[trigger] changes.drop_first()[k]).0 != f by {
            assert(changes.drop_first()[k] == changes[k + 1]);
        }
        lemma_set_all_other(bag_set(bag, changes[0].0, changes[0].1), changes.drop_first(), f);
    }
}

/// An identifier's bag position, characterized.
proof fn lemma_bags_find_char(bags: Seq<(Id, Seq<(Seq<char>, Seq<char>)>)>, id: Id)
    ensures
        match bags_find(bags, id) {
            Some(k) => 0 <= k < bags.len() && bags[k].0 == id,
            None => true,
        },
    decreases bags.len(),
{
    if bags.len() == 0 {
    } else if bags[0].0 == id {
    } else {
        lemma_bags_find_char(bags.drop_first(), id);
        match bags_find(bags.drop_first(), id) {
            Some(k0) => {
                assert(bags.drop_first()[k0] == bags[k0 + 1]);
            }
            None => {}
        }
    }
}

/// Two bag tables with the same identifier at every slot place any
/// identifier at the same slot.
proof fn lemma_bags_find_same_ids(
    b1: Seq<(Id, Seq<(Seq<char>, Seq<char>)>)>,
    b2: Seq<(Id, Seq<(Seq<char>, Seq<char>)>)>,
    id: Id,
)
    requires
        b1.len() == b2.len(),
        forall|i: int| 0 <= i < b1.len() ==> (#[trigger] b1[i]).0 == (#[trigger] b2[i]).0,
    ensures
        bags_find(b1, id) == bags_find(b2, id),
    decreases b1.len(),
{
    if b1.len() == 0 {
    } else {
        assert(b1[0].0 == b2[0].0);
        assert forall|i: int| 0 <= i < b1.len() - 1 implies (#[trigger] b1.drop_first()[i]).0 == (
        #[trigger] b2.drop_first()[i]).0 by {
            assert(b1.drop_first()[i] == b1[i + 1]);
            assert(b2.drop_first()[i] == b2[i + 1]);
        }
        lemma_bags_find_same_ids(b1.drop_first(), b2.drop_first(), id);
    }
}

/// Where a pushed bag lands in an identifier scan.
proof fn lemma_bags_find_push(
    bags: Seq<(Id, Seq<(Seq<char>, Seq<char>)>)>,
    e: (Id, Seq<(Seq<char>, Seq<char>)>),
    x: Id,
)
    ensures
        bags_find(bags.push(e), x) == match bags_find(bags, x) {
            Some(k) => Some(k),
            None => if e.0 == x {
                Some(bags.len() as int)
            } else {
                None::<int>
            },
        },
    decreases bags.len(),
{
    reveal_with_fuel(bags_find, 3);
    if bags.len() == 0 {
        assert(bags.push(e)[0] == e);
        assert(bags.push(e).drop_first() =~= Seq::<(Id, Seq<(Seq<char>, Seq<char>)>)>::empty());
    } else {
        assert(bags.push(e)[0] == bags[0]);
        lemma_bags_find_push(bags.drop_first(), e, x);
        assert(bags.push(e).drop_first() =~= bags.drop_first().push(e));
    }
}

/// Edit isolation law: an edit writes only the supplied fields.  Any other
/// field of the edited record keeps its value, and every other record's
/// bag is untouched.
pub proof fn lemma_edit_isolates(
    bags: Seq<(Id, Seq<(Seq<char>, Seq<char>)>)>,
    id: Id,
    changes: Seq<(Seq<char>, Seq<char>)>,
    f: Seq<char>,
    other: Id,
)
    requires
        forall|k: int| 0 <= k < changes.len() ==> (#[trigger] changes[k]).0 != f,
        other != id,
    ensures
        field_lookup(spec_retrieve_bag(spec_upsert(bags, id, changes), id), f) == field_lookup(
            spec_retrieve_bag(bags, id),
            f,
        ),
        spec_retrieve_bag(spec_upsert(bags, id, changes), other) == spec_retrieve_bag(bags, other),
{
    lemma_bags_find_char(bags, id);
    match bags_find(bags, id) {
        Some(k) => {
            let b2 = bags.update(k, (id, bag_set_all(bags[k].1, changes)));
            assert forall|i: int| 0 <= i < bags.len() implies (#[trigger] bags[i]).0 == (
            #[trigger] b2[i]).0 by {
                if i == k {
                    assert(b2[i].0 == id);
                }
            }
            lemma_bags_find_same_ids(bags, b2, id);
            assert(spec_retrieve_bag(b2, id) == bag_set_all(bags[k].1, changes));
            lemma_set_all_other(bags[k].1, changes, f);
            lemma_bags_find_same_ids(bags, b2, other);
            lemma_bags_find_char(bags, other);
            match bags_find(bags, other) {
                Some(m) => {
                    assert(bags[m].0 == other);
                    assert(m != k);
                    assert(b2[m] == bags[m]);
                }
                None => {}
            }
        }
        None => {
            let nb = (id, bag_set_all(Seq::<(Seq<char>, Seq<char>)>::empty(), changes));
            let b2 = bags.push(nb);
            lemma_bags_find_push(bags, nb, id);
            assert(spec_retrieve_bag(b2, id) == bag_set_all(
                Seq::<(Seq<char>, Seq<char>)>::empty(),
                changes,
            ));
            lemma_set_all_other(Seq::<(Seq<char>, Seq<char>)>::empty(), changes, f);
            lemma_bags_find_push(bags, nb, other);
            lemma_bags_find_char(bags, other);
            match bags_find(bags, other) {
                Some(m) => {
                    assert(b2[m] == bags[m]);
                }
                None => {}
            }
        }
    }
}

/// Sentinel markers stripped, a page's rows are exactly its window's rows.
proof fn lemma_strip_page_rows(
    bags: Seq<(Id, Seq<(Seq<char>, Seq<char>)>)>,
    last: Id,
    w: Seq<Id>,
)
    requires
        forall|i: int| 0 <= i < w.len() ==> #[trigger] w[i] != Id::spec_nil(),
    ensures
        strip_sentinels(spec_page_rows(bags, last, w)) == spec_rows(bags, w),
    decreases w.len(),
{
    reveal_with_fuel(Seq::filter, 3);
    if w.len() == 0 {
        assert(spec_page_rows(bags, last, w) =~= Seq::<(Id, Seq<(Seq<char>, Seq<char>)>)>::empty());
        assert(strip_sentinels(spec_page_rows(bags, last, w)) =~= spec_rows(bags, w));
    } else {
        let a = (w[0], spec_retrieve_bag(bags, w[0]));
        let sent = (Id::spec_nil(), Seq::<(Seq<char>, Seq<char>)>::empty());
        let head: Seq<(Id, Seq<(Seq<char>, Seq<char>)>)> = if w[0] == last {
            seq![a, sent]
        } else {
            seq![a]
        };
        Seq::filter_distributes_over_add(head, spec_page_rows(bags, last, w.drop_first()), real_row());
        assert((real_row())(a));
        assert(!(real_row())(sent));
        if w[0] == last {
            assert(seq![a, sent].drop_last() =~= seq![a]);
            assert(seq![a].drop_last() =~= Seq::<(Id, Seq<(Seq<char>, Seq<char>)>)>::empty());
            assert(head.filter(real_row()) =~= seq![a]);
        } else {
            assert(seq![a].drop_last() =~= Seq::<(Id, Seq<(Seq<char>, Seq<char>)>)>::empty());
            assert(head.filter(real_row()) =~= seq![a]);
        }
        assert forall|i: int| 0 <= i < w.drop_first().len() implies #[trigger] w.drop_first()[i]
            != Id::spec_nil() by {
            assert(w.drop_first()[i] == w[i + 1]);
        }
        lemma_strip_page_rows(bags, last, w.drop_first());
        assert(spec_rows(bags, w) =~= seq![a] + spec_rows(bags, w.drop_first()));
    }
}

/// A page's rank window is a stretch of the enumeration, clipped to the
/// index.
proof fn lemma_page_window_subrange(order: Seq<(Id, i64)>, n: int)
    requires
        n >= 1,
    ensures
        spec_range(order, 8 * (n - 1), 8 * n - 1) == entry_ids(order).subrange(
            if 8 * (n - 1) < order.len() {
                8 * (n - 1)
            } else {
                order.len() as int
            },
            if 8 * n < order.len() {
                8 * n
            } else {
                order.len() as int
            },
        ),
{
    let len = order.len() as int;
    let a: int = if 8 * (n - 1) < len {
        8 * (n - 1)
    } else {
        len
    };
    let b: int = if 8 * n < len {
        8 * n
    } else {
        len
    };
    assert(a <= b);
    if 8 * (n - 1) >= len {
        assert(spec_range(order, 8 * (n - 1), 8 * n - 1) =~= entry_ids(order).subrange(a, b));
    } else {
        assert(spec_range(order, 8 * (n - 1), 8 * n - 1) =~= entry_ids(order).subrange(a, b));
    }
}

/// Pages 1 through `k` cover the first `8k` ranks of the enumeration.
proof fn lemma_pages_prefix(s: Store, k: int)
    requires
        forall|i: int| 0 <= i < s.spec_order().len() ==> (#[trigger] s.spec_order()[i]).0
            != Id::spec_nil(),
        k >= 0,
    ensures
        strip_sentinels(s.spec_pages_concat(k)) == spec_rows(
            s.spec_bags(),
            entry_ids(s.spec_order()).subrange(
                0,
                if 8 * k < s.spec_order().len() {
                    8 * k
                } else {
                    s.spec_order().len() as int
                },
            ),
        ),
    decreases k,
{
    reveal_with_fuel(Seq::filter, 2);
    let order = s.spec_order();
    let bags = s.spec_bags();
    let len = order.len() as int;
    if k == 0 {
        assert(s.spec_pages_concat(0) =~= Seq::<(Id, Seq<(Seq<char>, Seq<char>)>)>::empty());
        assert(strip_sentinels(s.spec_pages_concat(0))
            =~= Seq::<(Id, Seq<(Seq<char>, Seq<char>)>)>::empty());
        assert(entry_ids(order).subrange(0, 0) =~= Seq::<Id>::empty());
    } else {
        lemma_pages_prefix(s, k - 1);
        Seq::filter_distributes_over_add(s.spec_pages_concat(k - 1), s.spec_page(k), real_row());
        lemma_page_window_subrange(order, k);
        let a: int = if 8 * (k - 1) < len {
            8 * (k - 1)
        } else {
            len
        };
        let b: int = if 8 * k < len {
            8 * k
        } else {
            len
        };
        let w = entry_ids(order).subrange(a, b);
        assert forall|i: int| 0 <= i < w.len() implies #[trigger] w[i] != Id::spec_nil() by {
            assert(w[i] == entry_ids(order)[a + i]);
            assert(entry_ids(order)[a + i] == order[a + i].0);
        }
        lemma_strip_page_rows(bags, crate::index::spec_last(order), w);
        assert(spec_rows(bags, entry_ids(order).subrange(0, a)) + spec_rows(bags, w)
            =~~= spec_rows(bags, entry_ids(order).subrange(0, b)));
    }
}

/// Pagination completeness law: pages 1 through `k`, their sentinel
/// markers stripped, reproduce the full enumeration exactly, for any `k`
/// covering the whole index: no row is missing, duplicated or reordered.
pub proof fn lemma_pagination_complete(s: Store, k: int)
    requires
        forall|i: int| 0 <= i < s.spec_order().len() ==> (#[trigger] s.spec_order()[i]).0
            != Id::spec_nil(),
        k >= 0,
        8 * k >= s.spec_order().len(),
    ensures
        strip_sentinels(s.spec_pages_concat(k)) == s.spec_all_rows(),
{
    lemma_pages_prefix(s, k);
    assert(entry_ids(s.spec_order()).subrange(0, s.spec_order().len() as int)
        =~= entry_ids(s.spec_order()));
}


/// Appending adds exactly one identifier to the ordering index's
/// membership.
proof fn lemma_append_ids(order: Seq<(Id, i64)>, rid: Id)
    requires
        scores_sorted(order),
    ensures
        forall|x: Id| #[trigger] entry_ids(spec_append(order, rid)).contains(x) <==> (x == rid
            || entry_ids(order).contains(x)),
{
    let score: i64 = (order.len() + 1) as i64;
    let pos = insert_pos(order, score);
    lemma_insert_pos_properties(order, score);
    let ins = spec_append(order, rid);
    order.insert_ensures(pos, (rid, score));
    assert forall|x: Id| #[trigger] entry_ids(ins).contains(x) <==> (x == rid || entry_ids(
        order,
    ).contains(x)) by {
        if entry_ids(ins).contains(x) {
            let k = choose|k: int| 0 <= k < entry_ids(ins).len() && entry_ids(ins)[k] == x;
            assert(ins[k].0 == x);
            if k < pos {
                assert(order[k].0 == x);
                assert(entry_ids(order)[k] == x);
            } else if k > pos {
                assert(order[k - 1].0 == x);
                assert(entry_ids(order)[k - 1] == x);
            }
        }
        if x == rid {
            assert(ins[pos].0 == x);
            assert(entry_ids(ins)[pos] == x);
        }
        if entry_ids(order).contains(x) {
            let k = choose|k: int| 0 <= k < entry_ids(order).len() && entry_ids(order)[k] == x;
            assert(order[k].0 == x);
            if k < pos {
                assert(ins[k].0 == x);
                assert(entry_ids(ins)[k] == x);
            } else {
                assert(ins[k + 1].0 == x);
                assert(entry_ids(ins)[k + 1] == x);
            }
        }
    }
}

/// Writing fields under an identifier adds at most that identifier to the
/// bag table's membership.
proof fn lemma_upsert_ids(
    bags: Seq<(Id, Seq<(Seq<char>, Seq<char>)>)>,
    id: Id,
    pairs: Seq<(Seq<char>, Seq<char>)>,
)
    ensures
        forall|x: Id| #[trigger] bag_ids(spec_upsert(bags, id, pairs)).contains(x) <==> (x == id
            || bag_ids(bags).contains(x)),
{
    lemma_bags_find_char(bags, id);
    let up = spec_upsert(bags, id, pairs);
    assert forall|x: Id| #[trigger] bag_ids(up).contains(x) <==> (x == id || bag_ids(
        bags,
    ).contains(x)) by {
        match bags_find(bags, id) {
            Some(k) => {
                assert(bag_ids(up) =~= bag_ids(bags)) by {
                    assert(forall|i: int| 0 <= i < bags.len() && i != k
                        ==> #[trigger] up[i] == bags[i]);
                    assert(up[k].0 == id);
                    assert(bags[k].0 == id);
                }
                if x == id {
                    assert(bag_ids(bags)[k] == id);
                }
            }
            None => {
                if bag_ids(up).contains(x) {
                    let j = choose|j: int| 0 <= j < bag_ids(up).len() && bag_ids(up)[j] == x;
                    assert(up[j].0 == x);
                    if j < bags.len() {
                        assert(bag_ids(bags)[j] == x);
                    }
                }
                if x == id {
                    assert(up[bags.len() as int].0 == x);
                    assert(bag_ids(up)[bags.len() as int] == x);
                }
                if bag_ids(bags).contains(x) {
                    let j = choose|j: int| 0 <= j < bag_ids(bags).len() && bag_ids(bags)[j] == x;
                    assert(up[j].0 == x);
                    assert(bag_ids(up)[j] == x);
                }
            }
        }
    }
}

/// Removal drops exactly one identifier from the ordering index's
/// membership.
proof fn lemma_remove_ids(order: Seq<(Id, i64)>, id: Id)
    ensures
        forall|x: Id| #[trigger] entry_ids(spec_remove_id(order, id)).contains(x) <==> (x != id
            && entry_ids(order).contains(x)),
{
    broadcast use vstd::seq_lib::group_filter_ensures;

    let f = spec_remove_id(order, id);
    assert forall|x: Id| #[trigger] entry_ids(f).contains(x) <==> (x != id && entry_ids(
        order,
    ).contains(x)) by {
        if entry_ids(f).contains(x) {
            let k = choose|k: int| 0 <= k < entry_ids(f).len() && entry_ids(f)[k] == x;
            assert(f[k].0 == x);
            assert((keeps(id))(f[k]));
            lemma_filter_element_of(order, keeps(id), k);
            let j = choose|j: int| 0 <= j < order.len() && order[j] == f[k];
            assert(entry_ids(order)[j] == x);
        }
        if x != id && entry_ids(order).contains(x) {
            let j = choose|j: int| 0 <= j < entry_ids(order).len() && entry_ids(order)[j] == x;
            assert((keeps(id))(order[j]));
            assert(f.contains(order[j]));
            let k = choose|k: int| 0 <= k < f.len() && f[k] == order[j];
            assert(entry_ids(f)[k] == x);
        }
    }
}

/// Removal drops exactly one identifier from the bag table's membership.
proof fn lemma_bags_remove_ids(bags: Seq<(Id, Seq<(Seq<char>, Seq<char>)>)>, id: Id)
    ensures
        forall|x: Id| #[trigger] bag_ids(spec_bags_remove(bags, id)).contains(x) <==> (x != id
            && bag_ids(bags).contains(x)),
{
    broadcast use vstd::seq_lib::group_filter_ensures;

    let f = spec_bags_remove(bags, id);
    assert forall|x: Id| #[trigger] bag_ids(f).contains(x) <==> (x != id && bag_ids(
        bags,
    ).contains(x)) by {
        if bag_ids(f).contains(x) {
            let k = choose|k: int| 0 <= k < bag_ids(f).len() && bag_ids(f)[k] == x;
            assert(f[k].0 == x);
            assert((keeps_bag(id))(f[k]));
            lemma_filter_element_of(bags, keeps_bag(id), k);
            let j = choose|j: int| 0 <= j < bags.len() && bags[j] == f[k];
            assert(bag_ids(bags)[j] == x);
        }
        if x != id && bag_ids(bags).contains(x) {
            let j = choose|j: int| 0 <= j < bag_ids(bags).len() && bag_ids(bags)[j] == x;
            assert((keeps_bag(id))(bags[j]));
            assert(f.contains(bags[j]));
            let k = choose|k: int| 0 <= k < f.len() && f[k] == bags[j];
            assert(bag_ids(f)[k] == x);
        }
    }
}

} // verus!
