//! The down-sampled interaction history of every user and the co-occurrence
//! matrix it induces, kept up to date one interaction at a time.
//!
//! Each user keeps a sample of at most `K_MAX` of the items it interacted
//! with; an item is sampled into at most `F_MAX` histories. Once a history is
//! full, a new interaction replaces a uniformly drawn slot of it (reservoir
//! sampling) or is dropped. The co-occurrence count of items `a` and `b` is the
//! number of ordered pairs of distinct positions, in one history, holding `a`
//! and `b`; the structure keeps these counts, their row sums and their total
//! equal to what the histories induce.
use crate::counting::{
    count, count_except, ind, items_below, lemma_count_at, lemma_count_bounds, lemma_count_contains,
    lemma_count_remove,
    lemma_count_except_bounds, lemma_count_except_step, lemma_count_push, lemma_count_take_le,
    lemma_count_take_step, lemma_count_update, lemma_row_sum_is_sum_of_row, lemma_sum_ge_term,
    lemma_sum_nonneg, lemma_sum_table, lemma_sum_update, lemma_tallies_push, lemma_tallies_update,
    lemma_total_is_sum_of_row_sums, only_if, pairs_sum_across, rest_count, row_sum_across,
    sum_tally, Tally,
};
use crate::fnv_collections::{
    fnv_map_entries, fnv_map_get, fnv_map_insert, fnv_map_new, fnv_set_insert, fnv_set_new,
};
use crate::random::gen_range;
use fnv::{FnvHashMap, FnvHashSet};
use rand::XorShiftRng;
use vstd::prelude::*;

verus! {

/// The most histories an item is sampled into.
pub const F_MAX: u32 = 500;

/// The most items a user's history holds.
pub const K_MAX: u32 = 500;

/// A count that an interaction would raise beyond the integer type that
/// holds it.
#[derive(Debug)]
pub struct CountOverflow;

/// The value held for `b` in one row of the co-occurrence matrix; an absent
/// key holds 0.
pub open spec fn cell(row: Map<u32, u16>, b: u32) -> int {
    if row.contains_key(b) {
        row[b] as int
    } else {
        0
    }
}

/// The partner sets after the item `x` was paired with each of `others`.
pub open spec fn link(partners: Seq<Set<u32>>, x: u32, others: Seq<u32>) -> Seq<Set<u32>> {
    Seq::new(
        partners.len(),
        |a: int|
            partners[a] + (if a == x {
                others.to_set()
            } else {
                Set::empty()
            }) + (if a <= u32::MAX && others.contains(a as u32) {
                set![x]
            } else {
                Set::empty()
            }),
    )
}

/// What the co-occurrence state stands for.
pub struct SampleView {
    /// The sampled history of each user.
    pub histories: Seq<Seq<u32>>,
    /// The number of interactions seen of each user, sampled or not.
    pub seen: Seq<int>,
    /// The number of interactions seen in all.
    pub interactions: int,
    /// For each item, the items it has ever been paired with in a history:
    /// the entries of its row of the co-occurrence matrix.
    pub partners: Seq<Set<u32>>,
}

impl SampleView {
    pub open spec fn num_users(self) -> nat {
        self.histories.len()
    }

    pub open spec fn num_items(self) -> nat {
        self.partners.len()
    }

    /// How many histories hold `i`, counted with multiplicity.
    pub open spec fn occurrences(self, i: u32) -> int {
        sum_tally(self.histories, Tally::Occurrences(i))
    }

    /// The co-occurrence count of `a` and `b`.
    pub open spec fn cooccurrence(self, a: u32, b: u32) -> int {
        sum_tally(self.histories, Tally::Pairs(a, b))
    }

    /// The sum of the row of `a` in the co-occurrence matrix.
    pub open spec fn row_sum(self, a: u32) -> int {
        sum_tally(self.histories, Tally::RowPairs(a))
    }

    /// The sum of all co-occurrence counts.
    pub open spec fn total(self) -> int {
        sum_tally(self.histories, Tally::AllPairs)
    }

    /// Every co-occurrence count, row sum and the total fit their types.
    pub open spec fn counts_fit(self) -> bool {
        &&& forall|a: u32, b: u32|
            a < self.num_items() && b < self.num_items() ==> #[trigger] self.cooccurrence(a, b)
                <= u16::MAX
        &&& forall|a: u32| a < self.num_items() ==> #[trigger] self.row_sum(a) <= u32::MAX
        &&& self.total() <= u64::MAX
    }

    /// Every count fits the integer type that holds it.
    pub open spec fn fits(self) -> bool {
        &&& self.counts_fit()
        &&& forall|u: int| 0 <= u < self.num_users() ==> #[trigger] self.seen[u] <= u32::MAX
        &&& self.interactions <= u64::MAX
    }

    /// One more interaction of `user` is seen.
    pub open spec fn counted(self, user: int) -> SampleView {
        SampleView {
            seen: self.seen.update(user, self.seen[user] + 1),
            interactions: self.interactions + 1,
            ..self
        }
    }

    /// `item` is appended to the history of `user`.
    pub open spec fn pushed(self, user: int, item: u32) -> SampleView {
        let h = self.histories[user];
        SampleView {
            histories: self.histories.update(user, h.push(item)),
            partners: link(self.partners, item, h),
            ..self
        }
    }

    /// `item` overwrites position `slot` of the history of `user`.
    pub open spec fn replaced(self, user: int, slot: int, item: u32) -> SampleView {
        let h = self.histories[user];
        SampleView {
            histories: self.histories.update(user, h.update(slot, item)),
            partners: link(self.partners, item, h.remove(slot)),
            ..self
        }
    }

    /// The state after `user` interacted with `item`; `slot` is the random
    /// draw, which counts only when the history of `user` is full.
    pub open spec fn step(self, user: int, item: u32, slot: int) -> SampleView {
        let h = self.histories[user];
        let s = self.counted(user);
        if self.occurrences(item) < F_MAX && h.len() < K_MAX {
            s.pushed(user, item)
        } else if self.occurrences(item) < F_MAX && 0 <= slot < h.len() {
            s.replaced(user, slot, item)
        } else {
            s
        }
    }

    /// The items whose row of the co-occurrence matrix the step touches.
    pub open spec fn touched(self, user: int, item: u32, slot: int) -> Set<u32> {
        let h = self.histories[user];
        if self.occurrences(item) < F_MAX && h.len() < K_MAX {
            h.to_set().insert(item)
        } else if self.occurrences(item) < F_MAX && 0 <= slot < h.len() {
            h.remove(slot).to_set().insert(h[slot]).insert(item)
        } else {
            Set::empty()
        }
    }
}

/// The state after the interactions of `batch`, in order, with `slots` as
/// their draws.
pub open spec fn run(v: SampleView, batch: Seq<(u32, u32)>, slots: Seq<int>) -> SampleView
    decreases batch.len(),
{
    if batch.len() == 0 {
        v
    } else {
        run(v, batch.drop_last(), slots.drop_last()).step(
            batch.last().0 as int,
            batch.last().1,
            slots.last(),
        )
    }
}

/// Each draw of `slots` lies in `0..=seen`, where `seen` is the number of
/// interactions of its user seen before it in the run: the range the
/// generator draws a full history's slot from.
pub open spec fn slots_in_range(v: SampleView, batch: Seq<(u32, u32)>, slots: Seq<int>) -> bool
    decreases batch.len(),
{
    if batch.len() == 0 {
        true
    } else {
        &&& slots_in_range(v, batch.drop_last(), slots.drop_last())
        &&& 0 <= slots.last() <= run(v, batch.drop_last(), slots.drop_last()).seen[batch.last().0 as int]
    }
}

/// The items whose rows the interactions of `batch` touch.
pub open spec fn touched_run(v: SampleView, batch: Seq<(u32, u32)>, slots: Seq<int>) -> Set<u32>
    decreases batch.len(),
{
    if batch.len() == 0 {
        Set::empty()
    } else {
        touched_run(v, batch.drop_last(), slots.drop_last()) + run(
            v,
            batch.drop_last(),
            slots.drop_last(),
        ).touched(batch.last().0 as int, batch.last().1, slots.last())
    }
}

/// `es` lists entries of the map `m`.
pub open spec fn lists_entries(es: Seq<(u32, u16)>, m: Map<u32, u16>) -> bool {
    &&& forall|j: int| #![trigger es[j]] 0 <= j < es.len() ==> m.contains_key(es[j].0)
    &&& forall|j: int| #![trigger es[j]] 0 <= j < es.len() ==> m[es[j].0] == es[j].1
    &&& forall|j1: int, j2: int|
        0 <= j1 < es.len() && 0 <= j2 < es.len() && j1 != j2 ==> #[trigger] es[j1].0 != #[trigger] es[j2].0
    &&& forall|k: u32| #[trigger] m.contains_key(k) ==> exists|j: int| 0 <= j < es.len() && #[trigger] es[j].0 == k
}

/// The first `n` tables of `out` are those of the first `n` entries of `es`.
pub open spec fn tables_prefix(
    out: Seq<(u32, ContingencyTable)>,
    es: Seq<(u32, u16)>,
    v: SampleView,
    a: u32,
    n: int,
) -> bool {
    forall|j: int|
        0 <= j < n ==> #[trigger] out[j].0 == es[j].0 && out[j].1.is_table_of(v, a, es[j].0)
            && v.total() + v.cooccurrence(a, es[j].0) <= u64::MAX
}

proof fn lemma_tables_prefix_at(
    out: Seq<(u32, ContingencyTable)>,
    es: Seq<(u32, u16)>,
    v: SampleView,
    a: u32,
    n: int,
    j: int,
)
    requires
        tables_prefix(out, es, v, a, n),
        0 <= j < n,
    ensures
        out[j].0 == es[j].0,
        out[j].1.is_table_of(v, a, es[j].0),
        v.total() + v.cooccurrence(a, es[j].0) <= u64::MAX,
{
    assert(out[j].0 == es[j].0);
}

proof fn lemma_tables_push(
    out: Seq<(u32, ContingencyTable)>,
    es: Seq<(u32, u16)>,
    v: SampleView,
    a: u32,
    n: int,
    b: u32,
    t: ContingencyTable,
)
    requires
        tables_prefix(out, es, v, a, n),
        out.len() == n,
        0 <= n < es.len(),
        es[n].0 == b,
        t.is_table_of(v, a, b),
        v.total() + v.cooccurrence(a, b) <= u64::MAX,
    ensures
        tables_prefix(out.push((b, t)), es, v, a, n + 1),
{
    let o = out.push((b, t));
    assert forall|j: int| 0 <= j < n + 1 implies #[trigger] o[j].0 == es[j].0 && o[j].1.is_table_of(
        v,
        a,
        es[j].0,
    ) && v.total() + v.cooccurrence(a, es[j].0) <= u64::MAX by {
        if j < n {
            lemma_tables_prefix_at(out, es, v, a, n, j);
            assert(o[j] == out[j]);
        } else {
            assert(o[j] == (b, t));
        }
    }
}

/// An entry that `es` lists is an entry of `m`.
pub proof fn lemma_listed_entry(es: Seq<(u32, u16)>, m: Map<u32, u16>, j: int)
    requires
        lists_entries(es, m),
        0 <= j < es.len(),
    ensures
        m.contains_key(es[j].0),
        m[es[j].0] == es[j].1,
{
    let e = es[j];
    assert(m.contains_key(e.0));
    assert(m[e.0] == e.1);
}

/// The 2x2 contingency table of two items: how often they occur together
/// (`k11`), how often each occurs with another item (`k12`, `k21`), and the
/// remaining cell `k22`.
#[derive(Clone, Copy, Debug, PartialEq, Eq, Structural)]
pub struct ContingencyTable {
    pub k11: u64,
    pub k12: u64,
    pub k21: u64,
    pub k22: u64,
}

impl ContingencyTable {
    /// This is the table of `a` against `b` in the state `v`.
    pub open spec fn is_table_of(self, v: SampleView, a: u32, b: u32) -> bool {
        let k11 = v.cooccurrence(a, b);
        let k12 = v.row_sum(a) - k11;
        let k21 = v.row_sum(b) - k11;
        &&& self.k11 == k11
        &&& self.k12 == k12
        &&& self.k21 == k21
        &&& self.k22 == v.total() + k11 - k12 - k21
    }
}

/// The down-sampled histories and the co-occurrence matrix they induce.
pub struct Cooccurrences {
    user_non_sampled_interaction_counts: Vec<u32>,
    user_interaction_counts: Vec<u32>,
    item_interaction_counts: Vec<u32>,
    samples_of_a: Vec<Vec<u32>>,
    c: Vec<FnvHashMap<u32, u16>>,
    row_sums_of_c: Vec<u32>,
    num_interactions_observed: u64,
    num_cooccurrences_observed: u64,
}

impl View for Cooccurrences {
    type V = SampleView;

    closed spec fn view(&self) -> SampleView {
        SampleView {
            histories: self.samples_of_a@.map_values(|h: Vec<u32>| h@),
            seen: self.user_non_sampled_interaction_counts@.map_values(|s: u32| s as int),
            interactions: self.num_interactions_observed as int,
            partners: self.c@.map_values(|m: FnvHashMap<u32, u16>| m@.dom()),
        }
    }
}

impl Cooccurrences {
    /// The counters agree with the histories they summarize.
    pub closed spec fn wf(&self) -> bool {
        let v = self@;
        let n = self.c@.len();
        &&& self.user_interaction_counts@.len() == v.num_users()
        &&& self.user_non_sampled_interaction_counts@.len() == v.num_users()
        &&& self.item_interaction_counts@.len() == n
        &&& self.row_sums_of_c@.len() == n
        &&& forall|u: int|
            0 <= u < v.num_users() ==> #[trigger] self.user_interaction_counts@[u]
                == v.histories[u].len() && v.histories[u].len() <= K_MAX
        &&& forall|u: int, p: int|
            0 <= u < v.num_users() && 0 <= p < v.histories[u].len() ==> #[trigger] v.histories[u][p]
                < n
        &&& forall|i: u32|
            i < n ==> #[trigger] self.item_interaction_counts@[i as int] == v.occurrences(i)
                && v.occurrences(i) <= F_MAX
        &&& forall|a: u32, b: u32|
            a < n ==> #[trigger] cell(self.c@[a as int]@, b) == v.cooccurrence(a, b)
        &&& forall|a: int, b: u32|
            0 <= a < n && #[trigger] self.c@[a]@.contains_key(b) ==> b < n
        &&& forall|a: u32| a < n ==> #[trigger] self.row_sums_of_c@[a as int] == v.row_sum(a)
        &&& self.num_cooccurrences_observed == v.total()
    }

    /// An empty state for `num_users` users and `num_items` items.
    pub fn new(num_users: usize, num_items: usize) -> (s: Self)
        ensures
            s.wf(),
            s@.histories == Seq::new(num_users as nat, |u: int| Seq::<u32>::empty()),
            s@.seen == Seq::new(num_users as nat, |u: int| 0int),
            s@.interactions == 0,
            s@.partners == Seq::new(num_items as nat, |a: int| Set::<u32>::empty()),
    {
        let mut user_non_sampled_interaction_counts: Vec<u32> = Vec::new();
        let mut user_interaction_counts: Vec<u32> = Vec::new();
        let mut samples_of_a: Vec<Vec<u32>> = Vec::new();
        for u in 0..num_users
            invariant
                user_non_sampled_interaction_counts@.len() == u,
                user_interaction_counts@.len() == u,
                samples_of_a@.len() == u,
                forall|j: int| 0 <= j < u ==> #[trigger] user_non_sampled_interaction_counts@[j] == 0,
                forall|j: int| 0 <= j < u ==> #[trigger] user_interaction_counts@[j] == 0,
                forall|j: int| 0 <= j < u ==> #[trigger] samples_of_a@[j]@ == Seq::<u32>::empty(),
        {
            user_non_sampled_interaction_counts.push(0);
            user_interaction_counts.push(0);
            samples_of_a.push(Vec::new());
        }
        let mut item_interaction_counts: Vec<u32> = Vec::new();
        let mut c: Vec<FnvHashMap<u32, u16>> = Vec::new();
        let mut row_sums_of_c: Vec<u32> = Vec::new();
        for i in 0..num_items
            invariant
                item_interaction_counts@.len() == i,
                c@.len() == i,
                row_sums_of_c@.len() == i,
                forall|j: int| 0 <= j < i ==> #[trigger] item_interaction_counts@[j] == 0,
                forall|j: int| 0 <= j < i ==> #[trigger] c@[j]@.dom() == Set::<u32>::empty(),
                forall|j: int| 0 <= j < i ==> #[trigger] row_sums_of_c@[j] == 0,
        {
            item_interaction_counts.push(0);
            c.push(fnv_map_new());
            row_sums_of_c.push(0);
        }
        let s = Cooccurrences {
            user_non_sampled_interaction_counts,
            user_interaction_counts,
            item_interaction_counts,
            samples_of_a,
            c,
            row_sums_of_c,
            num_interactions_observed: 0,
            num_cooccurrences_observed: 0,
        };
        proof {
            let v = s@;
            assert(v.histories =~= Seq::new(num_users as nat, |u: int| Seq::<u32>::empty()));
            assert(v.seen =~= Seq::new(num_users as nat, |u: int| 0int));
            assert(v.partners =~= Seq::new(num_items as nat, |a: int| Set::<u32>::empty()));
            assert forall|t: Tally| #[trigger] sum_tally(v.histories, t) == 0 by {
                lemma_sum_empty_histories(v.histories, t);
            }
        }
        s
    }

    /// The number of users.
    pub fn num_users(&self) -> (n: usize)
        requires
            self.wf(),
        ensures
            n == self@.num_users(),
    {
        self.samples_of_a.len()
    }

    /// The number of items.
    pub fn num_items(&self) -> (n: usize)
        ensures
            n == self@.num_items(),
    {
        self.c.len()
    }

    /// The co-occurrence count of `a` and `b`.
    pub fn cooccurrence_count(&self, a: u32, b: u32) -> (k: u16)
        requires
            self.wf(),
            a < self@.num_items(),
        ensures
            k == self@.cooccurrence(a, b),
    {
        proof {
            assert(cell(self.c@[a as int]@, b) == self@.cooccurrence(a, b));
        }
        match fnv_map_get(&self.c[a as usize], b) {
            Some(k) => k,
            None => 0,
        }
    }

    /// The sum of the row of `a` in the co-occurrence matrix.
    pub fn row_sum(&self, a: u32) -> (r: u32)
        requires
            self.wf(),
            a < self@.num_items(),
        ensures
            r == self@.row_sum(a),
    {
        self.row_sums_of_c[a as usize]
    }

    /// The sum of all co-occurrence counts.
    pub fn num_cooccurrences_observed(&self) -> (t: u64)
        requires
            self.wf(),
        ensures
            t == self@.total(),
    {
        self.num_cooccurrences_observed
    }

    /// The number of interactions seen.
    pub fn num_interactions_observed(&self) -> (t: u64)
        ensures
            t == self@.interactions,
    {
        self.num_interactions_observed
    }

    /// The number of interactions seen of `user`, sampled or not.
    pub fn user_non_sampled_interaction_count(&self, user: u32) -> (k: u32)
        requires
            self.wf(),
            user < self@.num_users(),
        ensures
            k == self@.seen[user as int],
    {
        self.user_non_sampled_interaction_counts[user as usize]
    }

    /// The number of histories that hold `item`, with multiplicity.
    pub fn item_interaction_count(&self, item: u32) -> (k: u32)
        requires
            self.wf(),
            item < self@.num_items(),
        ensures
            k == self@.occurrences(item),
    {
        self.item_interaction_counts[item as usize]
    }

    /// The sampled history of `user`.
    pub fn user_history(&self, user: u32) -> (h: &Vec<u32>)
        requires
            self.wf(),
            user < self@.num_users(),
        ensures
            h@ == self@.histories[user as int],
    {
        &self.samples_of_a[user as usize]
    }

    /// Records that `user` interacted with `item`, with `slot` as the draw
    /// that picks the position a full history gives up: `item` is appended
    /// to a history with room, overwrites position `slot` of a full one when
    /// `slot` falls inside it, or is dropped, and never enters the histories
    /// once `F_MAX` of them hold it. The items whose rows change are added to
    /// `to_rescore`. The step is refused exactly when a count would exceed its
    /// integer type; the state is then no longer to be used.
    pub fn observe_slot(
        &mut self,
        user: u32,
        item: u32,
        slot: usize,
        to_rescore: &mut FnvHashSet<u32>,
    ) -> (r: Result<(), CountOverflow>)
        requires
            old(self).wf(),
            user < old(self)@.num_users(),
            item < old(self)@.num_items(),
        ensures
            r is Ok <==> old(self)@.step(user as int, item, slot as int).fits(),
            r is Ok ==> final(self).wf(),
            r is Ok ==> final(self)@ == old(self)@.step(user as int, item, slot as int),
            r is Ok ==> final(to_rescore)@ == old(to_rescore)@ + old(self)@.touched(
                user as int,
                item,
                slot as int,
            ),
            r is Ok ==> forall|a: u32, b: u32|
                #[trigger] final(self)@.cooccurrence(a, b) != old(self)@.cooccurrence(a, b)
                    ==> final(to_rescore)@.contains(a),
            r is Ok ==> forall|a: u32|
                #[trigger] final(self)@.row_sum(a) != old(self)@.row_sum(a)
                    ==> final(to_rescore)@.contains(a),
            r is Ok ==> forall|a: u32|
                #[trigger] final(to_rescore)@.contains(a) ==> old(to_rescore)@.contains(a) || a
                    == item || old(self)@.histories[user as int].contains(a),
    {
        let u = user as usize;
        let ghost v0 = self@;
        let seen = self.user_non_sampled_interaction_counts[u];
        proof {
            let s1 = v0.step(user as int, item, slot as int);
            assert(s1.seen[user as int] == seen + 1);
            assert(s1.interactions == self.num_interactions_observed + 1);
        }
        if seen == u32::MAX {
            return Err(CountOverflow);
        }
        if self.num_interactions_observed == u64::MAX {
            return Err(CountOverflow);
        }
        self.user_non_sampled_interaction_counts.set(u, seen + 1);
        self.num_interactions_observed = self.num_interactions_observed + 1;
        proof {
            assert(self@.seen =~= v0.counted(user as int).seen);
            assert(self@.histories =~= v0.histories);
            assert(self@ == v0.counted(user as int));
            assert(self.wf());
            self.lemma_wf_counts_fit();
            assert forall|w: int| 0 <= w < v0.num_users() implies #[trigger] v0.step(
                user as int,
                item,
                slot as int,
            ).seen[w] <= u32::MAX by {
                assert(self.user_non_sampled_interaction_counts@[w] <= u32::MAX);
            }
        }
        proof {
            law_changed_rows_are_touched(v0, user as int, item, slot as int);
            law_touched_items_come_from_the_history(v0, user as int, item, slot as int);
        }
        if self.item_interaction_counts[item as usize] < F_MAX {
            if self.user_interaction_counts[u] < K_MAX {
                return self.add_sample(u, item, to_rescore);
            } else if slot < self.samples_of_a[u].len() {
                return self.replace_sample(u, item, slot, to_rescore);
            }
        }
        proof {
            assert(to_rescore@ =~= old(to_rescore)@ + v0.touched(user as int, item, slot as int));
        }
        Ok(())
    }

    /// Records that `user` interacted with `item`, as `observe_slot` does,
    /// drawing the slot from `rng` when the history of `user` is full: the
    /// draw ranges over the number of interactions seen of `user`, this one
    /// included, so it falls inside the history less often the more the user
    /// has been seen.
    pub fn observe(
        &mut self,
        user: u32,
        item: u32,
        rng: &mut XorShiftRng,
        to_rescore: &mut FnvHashSet<u32>,
    ) -> (r: Result<(), CountOverflow>)
        requires
            old(self).wf(),
            user < old(self)@.num_users(),
            item < old(self)@.num_items(),
        ensures
            exists|slot: int|
                0 <= slot <= old(self)@.seen[user as int] && {
                    &&& (r is Ok <==> old(self)@.step(user as int, item, slot).fits())
                    &&& (r is Ok ==> final(self).wf())
                    &&& (r is Ok ==> final(self)@ == old(self)@.step(user as int, item, slot))
                    &&& (r is Ok ==> final(to_rescore)@ == old(to_rescore)@ + old(self)@.touched(
                        user as int,
                        item,
                        slot,
                    ))
                },
            r is Ok ==> forall|a: u32, b: u32|
                #[trigger] final(self)@.cooccurrence(a, b) != old(self)@.cooccurrence(a, b)
                    ==> final(to_rescore)@.contains(a),
            r is Ok ==> forall|a: u32|
                #[trigger] final(self)@.row_sum(a) != old(self)@.row_sum(a)
                    ==> final(to_rescore)@.contains(a),
    {
        let u = user as usize;
        let seen = self.user_non_sampled_interaction_counts[u];
        let draws = self.item_interaction_counts[item as usize] < F_MAX
            && self.user_interaction_counts[u] >= K_MAX;
        let slot = if draws && seen < u32::MAX {
            gen_range(rng, 0, (seen + 1) as usize)
        } else {
            0
        };
        proof {
            assert(seen == self@.seen[user as int]);
        }
        self.observe_slot(user, item, slot, to_rescore)
    }

    /// The contingency table of `a` against `b`, whose co-occurrence count
    /// is `k11`; `None` when total + `k11` exceeds `u64`.
    fn table_of(&self, a: u32, b: u32, k11: u16) -> (t: Option<ContingencyTable>)
        requires
            self.wf(),
            a < self@.num_items(),
            b < self@.num_items(),
            k11 == self@.cooccurrence(a, b),
        ensures
            t is None <==> self@.total() + self@.cooccurrence(a, b) > u64::MAX,
            t matches Some(t) ==> t.is_table_of(self@, a, b),
    {
        proof {
            law_table_cells_nonnegative(self@, a, b);
            assert(self.row_sums_of_c@[a as int] == self@.row_sum(a));
            assert(self.row_sums_of_c@[b as int] == self@.row_sum(b));
        }
        let total = self.num_cooccurrences_observed;
        let k11 = k11 as u64;
        let k12 = self.row_sums_of_c[a as usize] as u64 - k11;
        let k21 = self.row_sums_of_c[b as usize] as u64 - k11;
        if total > u64::MAX - k11 {
            return None;
        }
        let k22 = total + k11 - k12 - k21;
        Some(ContingencyTable { k11, k12, k21, k22 })
    }

    /// The contingency table of `item` against each item of its row of the
    /// co-occurrence matrix, in the order the row's map yields its entries.
    /// For a partner `b` with co-occurrence count `k11`, the table holds
    /// `k11`, the rest `k12` of the row sum of `item`, the rest `k21` of the
    /// row sum of `b`, and `k22` = total + `k11` - `k12` - `k21`. `None` when
    /// total + `k11` exceeds `u64` for some partner.
    pub fn contingency_tables(&self, item: u32) -> (r: Option<Vec<(u32, ContingencyTable)>>)
        requires
            self.wf(),
            item < self@.num_items(),
        ensures
            r is None <==> exists|b: u32|
                #[trigger] self@.partners[item as int].contains(b) && self@.total()
                    + self@.cooccurrence(item, b) > u64::MAX,
            r matches Some(t) ==> forall|i: int|
                0 <= i < t@.len() ==> #[trigger] self@.partners[item as int].contains(t@[i].0)
                    && t@[i].1.is_table_of(self@, item, t@[i].0),
            r matches Some(t) ==> forall|i: int, j: int|
                0 <= i < t@.len() && 0 <= j < t@.len() && i != j ==> #[trigger] t@[i].0
                    != #[trigger] t@[j].0,
            r matches Some(t) ==> t@.map_values(|e: (u32, ContingencyTable)| e.0).to_set()
                == self@.partners[item as int],
    {
        let entries = fnv_map_entries(&self.c[item as usize]);
        let ghost v = self@;
        let ghost row = self.c@[item as int]@;
        let ghost es = entries@;
        proof {
            assert forall|j: int| #![trigger es[j]] 0 <= j < es.len() implies row.contains_key(es[j].0)
                && row[es[j].0] == es[j].1 by {
                assert(row.contains_key(entries@[j].0));
            }
            assert(lists_entries(es, row));
        }
        let mut out: Vec<(u32, ContingencyTable)> = Vec::new();
        let mut i: usize = 0;
        while i < entries.len()
            invariant
                self.wf(),
                v == self@,
                row == self.c@[item as int]@,
                es == entries@,
                item < v.num_items(),
                0 <= i <= es.len(),
                lists_entries(es, row),
                out@.len() == i,
                tables_prefix(out@, es, v, item, i as int),
            decreases es.len() - i,
        {
            let e = entries[i];
            let b = e.0;
            proof {
                assert(e == es[i as int]);
                lemma_listed_entry(es, row, i as int);
                assert(cell(row, b) == v.cooccurrence(item, b));
                assert(b < v.num_items());
            }
            let t = match self.table_of(item, b, e.1) {
                Some(t) => t,
                None => {
                    proof {
                        assert(v.partners[item as int].contains(b));
                    }
                    return None;
                },
            };
            let ghost before = out@;
            out.push((b, t));
            proof {
                lemma_tables_push(before, es, v, item, i as int, b, t);
                assert(out@ == before.push((b, t)));
            }
            i += 1;
        }
        proof {
            let t = out@;
            assert forall|j: int| 0 <= j < t.len() implies #[trigger] t[j].0 == es[j].0
                && t[j].1.is_table_of(v, item, es[j].0) && v.total() + v.cooccurrence(item, es[j].0)
                <= u64::MAX by {
                lemma_tables_prefix_at(t, es, v, item, i as int, j);
            }
            assert forall|c: u32| #[trigger] v.partners[item as int].contains(c) implies exists|j: int|
                0 <= j < t.len() && #[trigger] t[j].0 == c by {
                assert(row.contains_key(c));
                let j = choose|j: int| 0 <= j < es.len() && #[trigger] es[j].0 == c;
                assert(t[j].0 == c);
            }
            assert forall|c: u32| #[trigger] v.partners[item as int].contains(c) implies v.total()
                + v.cooccurrence(item, c) <= u64::MAX by {
                let j = choose|j: int| 0 <= j < t.len() && #[trigger] t[j].0 == c;
                assert(t[j].0 == es[j].0);
            }
            assert forall|j: int|
                0 <= j < t.len() implies #[trigger] v.partners[item as int].contains(t[j].0)
                    && t[j].1.is_table_of(v, item, t[j].0) by {
                assert(t[j].0 == es[j].0);
                assert(row.contains_key(es[j].0));
            }
            assert forall|j1: int, j2: int|
                0 <= j1 < t.len() && 0 <= j2 < t.len() && j1 != j2 implies #[trigger] t[j1].0
                    != #[trigger] t[j2].0 by {
                assert(t[j1].0 == es[j1].0);
                assert(t[j2].0 == es[j2].0);
            }
            let keys = t.map_values(|e: (u32, ContingencyTable)| e.0);
            assert forall|c: u32| keys.to_set().contains(c) <==> #[trigger] v.partners[item as int].contains(c) by {
                if v.partners[item as int].contains(c) {
                    let j = choose|j: int| 0 <= j < t.len() && #[trigger] t[j].0 == c;
                    assert(keys[j] == c);
                }
                if keys.to_set().contains(c) {
                    let j = choose|j: int| 0 <= j < keys.len() && keys[j] == c;
                    assert(t[j].0 == c);
                }
            }
            assert(keys.to_set() =~= v.partners[item as int]);
        }
        Some(out)
    }

    /// Records the interactions of `batch` in order, as `observe` does, and
    /// returns the items whose rows changed, to be rescored. Refused at the
    /// first interaction that would make a count exceed its integer type.
    pub fn observe_batch(&mut self, batch: &Vec<(u32, u32)>, rng: &mut XorShiftRng) -> (r: Result<
        FnvHashSet<u32>,
        CountOverflow,
    >)
        requires
            old(self).wf(),
            forall|i: int|
                0 <= i < batch@.len() ==> #[trigger] batch@[i].0 < old(self)@.num_users()
                    && batch@[i].1 < old(self)@.num_items(),
        ensures
            r matches Ok(to_rescore) ==> final(self).wf() && exists|slots: Seq<int>|
                slots.len() == batch@.len() && slots_in_range(old(self)@, batch@, slots)
                    && final(self)@ == run(old(self)@, batch@, slots) && to_rescore@ == touched_run(
                    old(self)@,
                    batch@,
                    slots,
                ),
            r is Err ==> exists|slots: Seq<int>, i: int|
                0 <= i < batch@.len() && slots.len() == i + 1 && slots_in_range(
                    old(self)@,
                    batch@.take(i + 1),
                    slots,
                ) && !(#[trigger] run(
                    old(self)@,
                    batch@.take(i + 1),
                    slots,
                )).fits(),
    {
        let ghost v0 = self@;
        let ghost mut slots: Seq<int> = Seq::empty();
        let mut to_rescore = fnv_set_new();
        let n = batch.len();
        let mut t: usize = 0;
        proof {
            assert(batch@.take(0) =~= Seq::<(u32, u32)>::empty());
        }
        while t < n
            invariant
                0 <= t <= n,
                n == batch@.len(),
                self.wf(),
                v0 == old(self)@,
                slots.len() == t,
                slots_in_range(v0, batch@.take(t as int), slots),
                self@ == run(v0, batch@.take(t as int), slots),
                to_rescore@ == touched_run(v0, batch@.take(t as int), slots),
                self@.num_users() == v0.num_users(),
                self@.num_items() == v0.num_items(),
                forall|i: int|
                    0 <= i < batch@.len() ==> #[trigger] batch@[i].0 < v0.num_users() && batch@[i].1
                        < v0.num_items(),
            decreases n - t,
        {
            let (user, item) = batch[t];
            let ghost prev = self@;
            let ghost prev_set = to_rescore@;
            proof {
                assert(batch@[t as int] == (user, item));
                assert(batch@.take(t + 1).drop_last() =~= batch@.take(t as int));
                assert(batch@.take(t + 1).last() == (user, item));
            }
            let res = self.observe(user, item, rng, &mut to_rescore);
            let ghost s = choose|slot: int|
                0 <= slot <= prev.seen[user as int] && {
                    &&& (res is Ok <==> prev.step(user as int, item, slot).fits())
                    &&& (res is Ok ==> self.wf())
                    &&& (res is Ok ==> self@ == prev.step(user as int, item, slot))
                    &&& (res is Ok ==> to_rescore@ == prev_set + prev.touched(
                        user as int,
                        item,
                        slot,
                    ))
                };
            proof {
                assert(slots.push(s).drop_last() =~= slots);
                assert(run(v0, batch@.take(t + 1), slots.push(s)) == prev.step(user as int, item, s));
                assert(slots_in_range(v0, batch@.take(t + 1), slots.push(s)));
            }
            if res.is_err() {
                proof {
                    assert(!run(v0, batch@.take(t + 1), slots.push(s)).fits());
                }
                return Err(CountOverflow);
            }
            proof {
                slots = slots.push(s);
                assert(to_rescore@ == touched_run(v0, batch@.take(t + 1), slots));
            }
            t += 1;
        }
        proof {
            assert(batch@.take(n as int) =~= batch@);
        }
        Ok(to_rescore)
    }

    /// Appends `x` to the history of user `u`, which holds fewer than
    /// `K_MAX` items, counting the pairs it forms with every item there.
    #[verifier::rlimit(40)]
    fn add_sample(&mut self, u: usize, x: u32, to_rescore: &mut FnvHashSet<u32>) -> (r: Result<
        (),
        CountOverflow,
    >)
        requires
            old(self).wf(),
            u < old(self)@.num_users(),
            x < old(self)@.num_items(),
            old(self)@.histories[u as int].len() < K_MAX,
            old(self)@.occurrences(x) < F_MAX,
        ensures
            r is Ok <==> old(self)@.pushed(u as int, x).counts_fit(),
            r is Ok ==> final(self).wf(),
            r is Ok ==> final(self)@ == old(self)@.pushed(u as int, x),
            r is Ok ==> final(to_rescore)@ == old(to_rescore)@ + old(self)@.histories[u as int].to_set().insert(x),
    {
        let ghost v0 = self@;
        let ghost v1 = v0.pushed(u as int, x);
        let ghost h = v0.histories[u as int];
        let ghost c0 = self.c@;
        let ghost r0 = self.row_sums_of_c@;
        let ghost s0 = to_rescore@;
        let ghost n = c0.len();
        proof {
            lemma_pushed_counts(v0, u as int, x);
        }
        let hl = self.samples_of_a[u].len();
        let mut t: usize = 0;
        while t < hl
            invariant
                old(self).wf(),
                v0 == old(self)@,
                v1 == v0.pushed(u as int, x),
                h == v0.histories[u as int],
                u < v0.num_users(),
                x < n,
                n == c0.len(),
                c0 == old(self).c@,
                r0 == old(self).row_sums_of_c@,
                s0 == old(to_rescore)@,
                0 <= t <= hl,
                hl == h.len(),
                self.samples_of_a == old(self).samples_of_a,
                self.user_interaction_counts == old(self).user_interaction_counts,
                self.user_non_sampled_interaction_counts == old(self).user_non_sampled_interaction_counts,
                self.item_interaction_counts == old(self).item_interaction_counts,
                self.num_interactions_observed == old(self).num_interactions_observed,
                self.num_cooccurrences_observed == old(self).num_cooccurrences_observed,
                self.c@.len() == n,
                self.row_sums_of_c@.len() == n,
                forall|a: u32, b: u32|
                    a < n ==> #[trigger] cell(self.c@[a as int]@, b) == cell(c0[a as int]@, b) + only_if(
                        a == x,
                        count(h.take(t as int), b) as int,
                    ) + only_if(b == x, count(h.take(t as int), a) as int),
                forall|a: int|
                    0 <= a < n ==> #[trigger] self.c@[a]@.dom() == c0[a]@.dom() + (if a == x {
                        h.take(t as int).to_set()
                    } else {
                        Set::empty()
                    }) + (if a <= u32::MAX && h.take(t as int).contains(a as u32) {
                        set![x]
                    } else {
                        Set::empty()
                    }),
                forall|a: u32|
                    a < n ==> #[trigger] self.row_sums_of_c@[a as int] == r0[a as int] + count(
                        h.take(t as int),
                        a,
                    ),
                to_rescore@ == s0 + h.take(t as int).to_set(),
            decreases hl - t,
        {
            let v = self.samples_of_a[u][t];
            let ghost cb = self.c@;
            proof {
                assert(v == h[t as int]);
                assert(v < n);
                assert forall|b: u32|
                    #[trigger] count(h.take(t + 1), b) == count(h.take(t as int), b) + ind(v == b) by {
                    lemma_count_take_step(h, t as int, b);
                }
                lemma_count_take_le(h, t + 1, v);
                lemma_count_take_le(h, t + 1, x);
                assert(h.take(t + 1) =~= h.take(t as int).push(v));
            }
            if !increment_cell(&mut self.c, x as usize, v) {
                proof {
                    lemma_pushed_counts(v0, u as int, x);
                    assert(cell(c0[x as int]@, v) == v0.cooccurrence(x, v));
                    if v == x {
                        assert(v1.cooccurrence(x, v) == v0.cooccurrence(x, v) + 2 * count(h, v));
                    } else {
                        assert(v1.cooccurrence(x, v) == v0.cooccurrence(x, v) + count(h, v));
                    }
                    assert(v1.cooccurrence(x, v) > u16::MAX);
                }
                return Err(CountOverflow);
            }
            if !increment_cell(&mut self.c, v as usize, x) {
                proof {
                    lemma_pushed_counts(v0, u as int, x);
                    assert(cell(c0[v as int]@, x) == v0.cooccurrence(v, x));
                    if v == x {
                        assert(v1.cooccurrence(v, x) == v0.cooccurrence(v, x) + 2 * count(h, v));
                    } else {
                        assert(v1.cooccurrence(v, x) == v0.cooccurrence(v, x) + count(h, v));
                    }
                    assert(v1.cooccurrence(v, x) > u16::MAX);
                }
                return Err(CountOverflow);
            }
            let rv = self.row_sums_of_c[v as usize];
            if rv == u32::MAX {
                proof {
                    lemma_pushed_counts(v0, u as int, x);
                    assert(v1.row_sum(v) > u32::MAX);
                }
                return Err(CountOverflow);
            }
            self.row_sums_of_c.set(v as usize, rv + 1);
            fnv_set_insert(to_rescore, v);
            proof {
                assert forall|a: u32, b: u32| a < n implies #[trigger] cell(self.c@[a as int]@, b) == cell(
                    c0[a as int]@,
                    b,
                ) + only_if(a == x, count(h.take(t + 1), b) as int) + only_if(
                    b == x,
                    count(h.take(t + 1), a) as int,
                ) by {
                    assert(cell(self.c@[a as int]@, b) == cell(cb[a as int]@, b) + ind(a == x && b == v)
                        + ind(a == v && b == x));
                    assert(count(h.take(t + 1), b) == count(h.take(t as int), b) + ind(v == b));
                    assert(count(h.take(t + 1), a) == count(h.take(t as int), a) + ind(v == a));
                }
            }
            t += 1;
            proof {
                assert(to_rescore@ =~= s0 + h.take(t as int).to_set());
                assert forall|a: int| 0 <= a < n implies #[trigger] self.c@[a]@.dom() =~= c0[a]@.dom() + (if a == x {
                        h.take(t as int).to_set()
                    } else {
                        Set::empty()
                    }) + (if a <= u32::MAX && h.take(t as int).contains(a as u32) {
                        set![x]
                    } else {
                        Set::empty()
                    }) by {}
            }
        }
        proof {
            assert(h.take(hl as int) =~= h);
            lemma_pushed_counts(v0, u as int, x);
        }
        let hl32 = hl as u32;
        let rx = self.row_sums_of_c[x as usize];
        if rx > u32::MAX - hl32 {
            proof {
                assert(v1.row_sum(x) > u32::MAX);
            }
            return Err(CountOverflow);
        }
        self.row_sums_of_c.set(x as usize, rx + hl32);
        let tot = self.num_cooccurrences_observed;
        let added = 2 * (hl as u64);
        if tot > u64::MAX - added {
            proof {
                assert(v1.total() > u64::MAX);
            }
            return Err(CountOverflow);
        }
        self.num_cooccurrences_observed = tot + added;
        self.samples_of_a[u].push(x);
        let uc = self.user_interaction_counts[u];
        self.user_interaction_counts.set(u, uc + 1);
        let ic = self.item_interaction_counts[x as usize];
        self.item_interaction_counts.set(x as usize, ic + 1);
        fnv_set_insert(to_rescore, x);
        proof {
            let v = self@;
            assert(v.histories =~= v1.histories);
            assert(v.seen =~= v1.seen);
            assert forall|a: int| 0 <= a < n implies #[trigger] v.partners[a] =~= v1.partners[a] by {}
            assert(v.partners =~= v1.partners);
            assert(v == v1);
            assert(to_rescore@ =~= s0 + h.to_set().insert(x));
            self.lemma_pushed_wf(old(self), u as int, x);
            self.lemma_wf_counts_fit();
        }
        Ok(())
    }

    /// Overwrites position `k` of the full history of user `u` with `x`:
    /// the pairs the old item formed with the rest of the history are taken
    /// out of the counts first, then those `x` forms with them are added.
    #[verifier::rlimit(60)]
    fn replace_sample(
        &mut self,
        u: usize,
        x: u32,
        k: usize,
        to_rescore: &mut FnvHashSet<u32>,
    ) -> (r: Result<(), CountOverflow>)
        requires
            old(self).wf(),
            u < old(self)@.num_users(),
            x < old(self)@.num_items(),
            k < old(self)@.histories[u as int].len(),
            old(self)@.occurrences(x) < F_MAX,
        ensures
            r is Ok <==> old(self)@.replaced(u as int, k as int, x).counts_fit(),
            r is Ok ==> final(self).wf(),
            r is Ok ==> final(self)@ == old(self)@.replaced(u as int, k as int, x),
            r is Ok ==> final(to_rescore)@ == old(to_rescore)@ + old(self)@.histories[u as int].remove(
                k as int,
            ).to_set().insert(old(self)@.histories[u as int][k as int]).insert(x),
    {
        let ghost v0 = self@;
        let ghost v1 = v0.replaced(u as int, k as int, x);
        let ghost h = v0.histories[u as int];
        let ghost c0 = self.c@;
        let ghost r0 = self.row_sums_of_c@;
        let ghost s0 = to_rescore@;
        let ghost n = c0.len();
        let ghost ki = k as int;
        let hl = self.samples_of_a[u].len();
        let p = self.samples_of_a[u][k];
        proof {
            lemma_replaced_counts(v0, u as int, ki, x);
            assert(p < n);
        }
        // The pairs of the old item with the rest of the history go.
        let mut t: usize = 0;
        while t < hl
            invariant
                old(self).wf(),
                v0 == old(self)@,
                h == v0.histories[u as int],
                u < v0.num_users(),
                x < n,
                p < n,
                p == h[ki],
                ki == k,
                k < hl,
                n == c0.len(),
                c0 == old(self).c@,
                s0 == old(to_rescore)@,
                0 <= t <= hl,
                hl == h.len(),
                self.samples_of_a == old(self).samples_of_a,
                self.user_interaction_counts == old(self).user_interaction_counts,
                self.user_non_sampled_interaction_counts == old(self).user_non_sampled_interaction_counts,
                self.item_interaction_counts == old(self).item_interaction_counts,
                self.row_sums_of_c == old(self).row_sums_of_c,
                self.num_interactions_observed == old(self).num_interactions_observed,
                self.num_cooccurrences_observed == old(self).num_cooccurrences_observed,
                self.c@.len() == n,
                forall|a: u32, b: u32|
                    a < n ==> #[trigger] cell(self.c@[a as int]@, b) == cell(c0[a as int]@, b) - only_if(
                        a == p,
                        count_except(h, ki, t as int, b),
                    ) - only_if(b == p, count_except(h, ki, t as int, a)),
                forall|a: int| 0 <= a < n ==> #[trigger] self.c@[a]@.dom() == c0[a]@.dom(),
                forall|a: u32, b: u32|
                    only_if(a == p, rest_count(h, ki, b)) + only_if(b == p, rest_count(h, ki, a))
                        <= #[trigger] v0.cooccurrence(a, b),
                to_rescore@ == s0 + except_set(h, ki, t as int),
            decreases hl - t,
        {
            let ghost cb = self.c@;
            if t != k {
                let v = self.samples_of_a[u][t];
                proof {
                    assert(v == h[t as int]);
                    assert(v < n);
                    lemma_count_except_step(h, ki, t as int, v);
                    lemma_count_except_step(h, ki, t as int, p);
                    lemma_count_except_bounds(h, ki, t + 1, v);
                    lemma_count_except_bounds(h, ki, t + 1, p);
                    assert(cell(c0[p as int]@, v) == v0.cooccurrence(p, v));
                    assert(cell(c0[v as int]@, p) == v0.cooccurrence(v, p));
                    assert(only_if(p == p, rest_count(h, ki, v)) + only_if(v == p, rest_count(h, ki, p))
                        <= v0.cooccurrence(p, v));
                    assert(only_if(v == p, rest_count(h, ki, p)) + only_if(p == p, rest_count(h, ki, v))
                        <= v0.cooccurrence(v, p));
                }
                decrement_cell(&mut self.c, p as usize, v);
                decrement_cell(&mut self.c, v as usize, p);
                fnv_set_insert(to_rescore, v);
                proof {
                    assert forall|a: u32, b: u32| a < n implies #[trigger] cell(self.c@[a as int]@, b)
                        == cell(c0[a as int]@, b) - only_if(a == p, count_except(h, ki, t + 1, b))
                        - only_if(b == p, count_except(h, ki, t + 1, a)) by {
                        assert(cell(self.c@[a as int]@, b) == cell(cb[a as int]@, b) - ind(
                            a == p && b == v,
                        ) - ind(a == v && b == p));
                        lemma_count_except_step(h, ki, t as int, a);
                        lemma_count_except_step(h, ki, t as int, b);
                    }
                    assert forall|a: int| 0 <= a < n implies #[trigger] self.c@[a]@.dom() == c0[a]@.dom() by {
                        assert(self.c@[a]@.dom() =~= cb[a]@.dom());
                    }
                }
            } else {
                proof {
                    assert forall|a: u32, b: u32| a < n implies #[trigger] cell(self.c@[a as int]@, b)
                        == cell(c0[a as int]@, b) - only_if(a == p, count_except(h, ki, t + 1, b))
                        - only_if(b == p, count_except(h, ki, t + 1, a)) by {
                        lemma_count_except_step(h, ki, t as int, a);
                        lemma_count_except_step(h, ki, t as int, b);
                    }
                }
            }
            proof {
                assert(h.take(t + 1) =~= h.take(t as int).push(h[t as int]));
                assert(to_rescore@ =~= s0 + except_set(h, ki, t + 1));
            }
            t += 1;
        }
        proof {
            assert forall|w: u32| #[trigger] count_except(h, ki, hl as int, w) == rest_count(h, ki, w) by {
                lemma_count_except_bounds(h, ki, hl as int, w);
            }
            lemma_except_set_full(h, ki);
        }
        let ghost c1 = self.c@;
        // The pairs of the new item with the rest of the history come.
        let mut t: usize = 0;
        while t < hl
            invariant
                old(self).wf(),
                v0 == old(self)@,
                v1 == v0.replaced(u as int, ki, x),
                h == v0.histories[u as int],
                u < v0.num_users(),
                x < n,
                p < n,
                p == h[ki],
                ki == k,
                k < hl,
                n == c0.len(),
                c0 == old(self).c@,
                0 <= t <= hl,
                hl == h.len(),
                self.samples_of_a == old(self).samples_of_a,
                self.user_interaction_counts == old(self).user_interaction_counts,
                self.user_non_sampled_interaction_counts == old(self).user_non_sampled_interaction_counts,
                self.item_interaction_counts == old(self).item_interaction_counts,
                self.row_sums_of_c == old(self).row_sums_of_c,
                self.num_interactions_observed == old(self).num_interactions_observed,
                self.num_cooccurrences_observed == old(self).num_cooccurrences_observed,
                self.c@.len() == n,
                forall|a: u32, b: u32|
                    a < n ==> #[trigger] cell(self.c@[a as int]@, b) == cell(c0[a as int]@, b) - only_if(
                        a == p,
                        rest_count(h, ki, b),
                    ) - only_if(b == p, rest_count(h, ki, a)) + only_if(
                        a == x,
                        count_except(h, ki, t as int, b),
                    ) + only_if(b == x, count_except(h, ki, t as int, a)),
                forall|a: int|
                    0 <= a < n ==> #[trigger] self.c@[a]@.dom() == c0[a]@.dom() + (if a == x {
                        except_set(h, ki, t as int)
                    } else {
                        Set::empty()
                    }) + (if a <= u32::MAX && except_set(h, ki, t as int).contains(a as u32) {
                        set![x]
                    } else {
                        Set::empty()
                    }),
                forall|a: u32, b: u32|
                    #[trigger] v1.cooccurrence(a, b) == v0.cooccurrence(a, b) + only_if(
                        a == x,
                        rest_count(h, ki, b),
                    ) + only_if(b == x, rest_count(h, ki, a)) - only_if(a == p, rest_count(h, ki, b))
                        - only_if(b == p, rest_count(h, ki, a)),
            decreases hl - t,
        {
            let ghost cb = self.c@;
            if t != k {
                let v = self.samples_of_a[u][t];
                proof {
                    assert(v == h[t as int]);
                    assert(v < n);
                    lemma_count_except_step(h, ki, t as int, v);
                    lemma_count_except_step(h, ki, t as int, x);
                    lemma_count_except_bounds(h, ki, t + 1, v);
                    lemma_count_except_bounds(h, ki, t + 1, x);
                    assert(cell(c0[x as int]@, v) == v0.cooccurrence(x, v));
                    assert(cell(c0[v as int]@, x) == v0.cooccurrence(v, x));
                }
                if !increment_cell(&mut self.c, x as usize, v) {
                    proof {
                        assert(v1.cooccurrence(x, v) > u16::MAX);
                    }
                    return Err(CountOverflow);
                }
                if !increment_cell(&mut self.c, v as usize, x) {
                    proof {
                        assert(v1.cooccurrence(v, x) > u16::MAX);
                    }
                    return Err(CountOverflow);
                }
                proof {
                    assert forall|a: u32, b: u32| a < n implies #[trigger] cell(self.c@[a as int]@, b)
                        == cell(c0[a as int]@, b) - only_if(a == p, rest_count(h, ki, b)) - only_if(
                        b == p,
                        rest_count(h, ki, a),
                    ) + only_if(a == x, count_except(h, ki, t + 1, b)) + only_if(
                        b == x,
                        count_except(h, ki, t + 1, a),
                    ) by {
                        assert(cell(self.c@[a as int]@, b) == cell(cb[a as int]@, b) + ind(
                            a == x && b == v,
                        ) + ind(a == v && b == x));
                        lemma_count_except_step(h, ki, t as int, a);
                        lemma_count_except_step(h, ki, t as int, b);
                    }
                }
            } else {
                proof {
                    assert forall|a: u32, b: u32| a < n implies #[trigger] cell(self.c@[a as int]@, b)
                        == cell(c0[a as int]@, b) - only_if(a == p, rest_count(h, ki, b)) - only_if(
                        b == p,
                        rest_count(h, ki, a),
                    ) + only_if(a == x, count_except(h, ki, t + 1, b)) + only_if(
                        b == x,
                        count_except(h, ki, t + 1, a),
                    ) by {
                        lemma_count_except_step(h, ki, t as int, a);
                        lemma_count_except_step(h, ki, t as int, b);
                    }
                }
            }
            proof {
                assert forall|a: int| 0 <= a < n implies #[trigger] self.c@[a]@.dom() =~= c0[a]@.dom() + (
                if a == x {
                    except_set(h, ki, t + 1)
                } else {
                    Set::empty()
                }) + (if a <= u32::MAX && except_set(h, ki, t + 1).contains(a as u32) {
                    set![x]
                } else {
                    Set::empty()
                }) by {}
            }
            t += 1;
        }
        proof {
            assert forall|w: u32| #[trigger] count_except(h, ki, hl as int, w) == rest_count(h, ki, w) by {
                lemma_count_except_bounds(h, ki, hl as int, w);
            }
            lemma_replaced_counts(v0, u as int, ki, x);
        }
        let l1 = (hl - 1) as u32;
        let rp = self.row_sums_of_c[p as usize];
        self.row_sums_of_c.set(p as usize, rp - l1);
        let rx = self.row_sums_of_c[x as usize];
        if rx > u32::MAX - l1 {
            proof {
                assert(v1.row_sum(x) > u32::MAX);
            }
            return Err(CountOverflow);
        }
        self.row_sums_of_c.set(x as usize, rx + l1);
        self.samples_of_a[u].set(k, x);
        proof {
            lemma_count_at(h, ki);
            lemma_sum_ge_term(v0.histories, u as int, Tally::Occurrences(p));
            assert(old(self).item_interaction_counts@[p as int] == v0.occurrences(p));
            assert(old(self).item_interaction_counts@[x as int] == v0.occurrences(x));
        }
        let ix = self.item_interaction_counts[x as usize];
        self.item_interaction_counts.set(x as usize, ix + 1);
        let ip = self.item_interaction_counts[p as usize];
        self.item_interaction_counts.set(p as usize, ip - 1);
        fnv_set_insert(to_rescore, p);
        fnv_set_insert(to_rescore, x);
        proof {
            let v = self@;
            assert(v.histories =~= v1.histories);
            assert(v.seen =~= v1.seen);
            assert forall|a: int| 0 <= a < n implies #[trigger] v.partners[a] =~= v1.partners[a] by {}
            assert(v.partners =~= v1.partners);
            assert(v == v1);
            assert(to_rescore@ =~= s0 + h.remove(ki).to_set().insert(p).insert(x));
            self.lemma_replaced_wf(old(self), u as int, ki, x);
            self.lemma_wf_counts_fit();
        }
        Ok(())
    }

    /// After a replacement, the counters agree with the new histories again.
    proof fn lemma_replaced_wf(&self, prev: &Self, u: int, k: int, x: u32)
        requires
            prev.wf(),
            0 <= u < prev@.num_users(),
            0 <= k < prev@.histories[u].len(),
            x < prev@.num_items(),
            prev@.occurrences(x) < F_MAX,
            self@ == prev@.replaced(u, k, x),
            self.c@.len() == prev.c@.len(),
            self.user_interaction_counts@ == prev.user_interaction_counts@,
            self.user_non_sampled_interaction_counts@ == prev.user_non_sampled_interaction_counts@,
            self.item_interaction_counts@ == prev.item_interaction_counts@.update(
                x as int,
                (prev.item_interaction_counts@[x as int] + 1) as u32,
            ).update(
                prev@.histories[u][k] as int,
                (prev.item_interaction_counts@.update(
                    x as int,
                    (prev.item_interaction_counts@[x as int] + 1) as u32,
                )[prev@.histories[u][k] as int] - 1) as u32,
            ),
            self.row_sums_of_c@.len() == prev.row_sums_of_c@.len(),
            forall|a: u32|
                a < prev.c@.len() ==> #[trigger] self.row_sums_of_c@[a as int] == prev.row_sums_of_c@[a as int]
                    + only_if(a == x, prev@.histories[u].len() - 1) - only_if(
                    a == prev@.histories[u][k],
                    prev@.histories[u].len() - 1,
                ),
            forall|a: u32, b: u32|
                a < prev.c@.len() ==> #[trigger] cell(self.c@[a as int]@, b) == self@.cooccurrence(a, b),
            self.num_cooccurrences_observed == prev.num_cooccurrences_observed,
        ensures
            self.wf(),
    {
        let v0 = prev@;
        let v1 = self@;
        let h = v0.histories[u];
        let p = h[k];
        let n = self.c@.len();
        lemma_replaced_counts(v0, u, k, x);
        assert forall|w: int, q: int|
            0 <= w < v1.num_users() && 0 <= q < v1.histories[w].len() implies #[trigger] v1.histories[w][q]
                < n by {
            if w == u && q == k {
            } else if w == u {
                assert(v1.histories[w][q] == h[q]);
            }
        }
        assert forall|a: int, b: u32|
            0 <= a < n && #[trigger] self.c@[a]@.contains_key(b) implies b < n by {
            if !prev.c@[a]@.contains_key(b) {
                assert(v1.partners[a] == self.c@[a]@.dom());
                if a == x && h.remove(k).to_set().contains(b) {
                    let q = choose|q: int| 0 <= q < h.remove(k).len() && h.remove(k)[q] == b;
                    if q < k {
                        assert(v0.histories[u][q] < n);
                    } else {
                        assert(v0.histories[u][q + 1] < n);
                    }
                }
            }
        }
        assert(v0.occurrences(p) >= 1) by {
            lemma_count_at(h, k);
            lemma_sum_ge_term(v0.histories, u, Tally::Occurrences(p));
        }
        assert forall|i: u32| i < n implies #[trigger] self.item_interaction_counts@[i as int] == v1.occurrences(i)
            && v1.occurrences(i) <= F_MAX by {}
        assert forall|w: int|
            0 <= w < v1.num_users() implies #[trigger] self.user_interaction_counts@[w]
                == v1.histories[w].len() && v1.histories[w].len() <= K_MAX by {}
        assert forall|a: u32| a < n implies #[trigger] self.row_sums_of_c@[a as int] == v1.row_sum(a) by {}
    }

    /// The counts of a well-formed state fit their types.
    proof fn lemma_wf_counts_fit(&self)
        requires
            self.wf(),
        ensures
            self@.counts_fit(),
    {
        let n = self.c@.len();
        assert forall|a: u32, b: u32|
            a < n && b < n implies #[trigger] self@.cooccurrence(a, b) <= u16::MAX by {
            assert(cell(self.c@[a as int]@, b) <= u16::MAX);
        }
        assert forall|a: u32| a < n implies #[trigger] self@.row_sum(a) <= u32::MAX by {
            assert(self.row_sums_of_c@[a as int] <= u32::MAX);
        }
    }

    /// After a push, the counters agree with the new histories again.
    proof fn lemma_pushed_wf(&self, prev: &Self, u: int, x: u32)
        requires
            prev.wf(),
            0 <= u < prev@.num_users(),
            x < prev@.num_items(),
            prev@.histories[u].len() < K_MAX,
            prev@.occurrences(x) < F_MAX,
            self@ == prev@.pushed(u, x),
            self.c@.len() == prev.c@.len(),
            self.user_interaction_counts@ == prev.user_interaction_counts@.update(
                u,
                (prev.user_interaction_counts@[u] + 1) as u32,
            ),
            self.user_non_sampled_interaction_counts@ == prev.user_non_sampled_interaction_counts@,
            self.item_interaction_counts@ == prev.item_interaction_counts@.update(
                x as int,
                (prev.item_interaction_counts@[x as int] + 1) as u32,
            ),
            self.row_sums_of_c@.len() == prev.row_sums_of_c@.len(),
            forall|a: u32|
                a < prev.c@.len() ==> #[trigger] self.row_sums_of_c@[a as int] == prev.row_sums_of_c@[a as int]
                    + count(prev@.histories[u], a) + only_if(a == x, prev@.histories[u].len() as int),
            forall|a: u32, b: u32|
                a < prev.c@.len() ==> #[trigger] cell(self.c@[a as int]@, b) == cell(
                    prev.c@[a as int]@,
                    b,
                ) + only_if(a == x, count(prev@.histories[u], b) as int) + only_if(
                    b == x,
                    count(prev@.histories[u], a) as int,
                ),
            self.num_cooccurrences_observed == prev.num_cooccurrences_observed + 2 * prev@.histories[u].len(),
        ensures
            self.wf(),
    {
        let v0 = prev@;
        let v1 = self@;
        let h = v0.histories[u];
        let n = self.c@.len();
        lemma_pushed_counts(v0, u, x);
        assert forall|w: int, p: int|
            0 <= w < v1.num_users() && 0 <= p < v1.histories[w].len() implies #[trigger] v1.histories[w][p]
                < n by {
            if w == u && p == h.len() {
            } else if w == u {
                assert(v1.histories[w][p] == h[p]);
            }
        }
        assert forall|a: int, b: u32|
            0 <= a < n && #[trigger] self.c@[a]@.contains_key(b) implies b < n by {
            if !prev.c@[a]@.contains_key(b) {
                assert(v1.partners[a] == self.c@[a]@.dom());
                if a == x && h.to_set().contains(b) {
                    let p = choose|p: int| 0 <= p < h.len() && h[p] == b;
                    assert(v0.histories[u][p] < n);
                }
            }
        }
        assert forall|i: u32| i < n implies #[trigger] self.item_interaction_counts@[i as int] == v1.occurrences(i)
            && v1.occurrences(i) <= F_MAX by {}
        assert forall|w: int|
            0 <= w < v1.num_users() implies #[trigger] self.user_interaction_counts@[w]
                == v1.histories[w].len() && v1.histories[w].len() <= K_MAX by {}
    }
}

/// No history holds more than `K_MAX` items, no item is in more than
/// `F_MAX` histories (with multiplicity), and every sampled item is one of
/// the items of the state.
pub proof fn law_sampling_bounds(s: &Cooccurrences)
    requires
        s.wf(),
    ensures
        forall|u: int| 0 <= u < s@.num_users() ==> #[trigger] s@.histories[u].len() <= K_MAX,
        forall|i: u32| i < s@.num_items() ==> #[trigger] s@.occurrences(i) <= F_MAX,
        items_below(s@.histories, s@.num_items()),
{
    assert forall|u: int| 0 <= u < s@.num_users() implies #[trigger] s@.histories[u].len() <= K_MAX by {
        assert(s.user_interaction_counts@[u] == s@.histories[u].len());
    }
    assert forall|i: u32| i < s@.num_items() implies #[trigger] s@.occurrences(i) <= F_MAX by {
        assert(s.item_interaction_counts@[i as int] == s@.occurrences(i));
    }
}

/// The co-occurrence matrix is symmetric.
pub proof fn law_cooccurrence_symmetric(v: SampleView, a: u32, b: u32)
    ensures
        v.cooccurrence(a, b) == v.cooccurrence(b, a),
{
    lemma_sum_table(v.histories, a, b);
}

/// Every cell of a contingency table is non-negative: a co-occurrence count
/// is at most the row sum of either item, and the last cell, total + `k11` -
/// `k12` - `k21`, is not negative.
pub proof fn law_table_cells_nonnegative(v: SampleView, a: u32, b: u32)
    ensures
        0 <= v.cooccurrence(a, b),
        v.cooccurrence(a, b) <= v.row_sum(a),
        v.cooccurrence(a, b) <= v.row_sum(b),
        v.total() + v.cooccurrence(a, b) - (v.row_sum(a) - v.cooccurrence(a, b)) - (v.row_sum(b)
            - v.cooccurrence(a, b)) >= 0,
{
    lemma_sum_table(v.histories, a, b);
    lemma_sum_table(v.histories, b, a);
    lemma_sum_nonneg(v.histories, Tally::Pairs(a, b));
}

/// The row sum kept for an item is the sum of its row of the co-occurrence
/// matrix.
pub proof fn law_row_sum_is_sum_of_row(s: &Cooccurrences, a: u32)
    requires
        s.wf(),
        s@.num_items() <= u32::MAX + 1,
    ensures
        pairs_sum_across(s@.histories, a, s@.num_items()) == s@.row_sum(a),
{
    law_sampling_bounds(s);
    lemma_row_sum_is_sum_of_row(s@.histories, a, s@.num_items());
}

/// The number of co-occurrences observed is the sum of all row sums.
pub proof fn law_total_is_sum_of_row_sums(s: &Cooccurrences)
    requires
        s.wf(),
        s@.num_items() <= u32::MAX + 1,
    ensures
        row_sum_across(s@.histories, s@.num_items()) == s@.total(),
{
    law_sampling_bounds(s);
    lemma_total_is_sum_of_row_sums(s@.histories, s@.num_items());
}

/// An interaction changes no history but that of its user; a history never
/// grows beyond `K_MAX`, and a full history stays full.
pub proof fn law_step_changes_one_history(v: SampleView, user: int, item: u32, slot: int)
    requires
        0 <= user < v.num_users(),
        v.seen.len() == v.num_users(),
        v.histories[user].len() <= K_MAX,
    ensures
        forall|w: int|
            0 <= w < v.num_users() && w != user ==> #[trigger] v.step(user, item, slot).histories[w]
                == v.histories[w],
        v.step(user, item, slot).histories.len() == v.histories.len(),
        v.step(user, item, slot).histories[user].len() <= K_MAX,
        v.histories[user].len() == K_MAX ==> v.step(user, item, slot).histories[user].len() == K_MAX,
        v.step(user, item, slot).interactions == v.interactions + 1,
        v.step(user, item, slot).seen[user] == v.seen[user] + 1,
{
}

/// An item already sampled `F_MAX` times leaves every history as it is.
pub proof fn law_capped_item_is_not_sampled(v: SampleView, user: int, item: u32, slot: int)
    requires
        0 <= user < v.num_users(),
        v.occurrences(item) >= F_MAX,
    ensures
        v.step(user, item, slot).histories == v.histories,
        v.step(user, item, slot).partners == v.partners,
        v.touched(user, item, slot) == Set::<u32>::empty(),
{
}

/// Every item whose row of the co-occurrence matrix changes in a step (any
/// co-occurrence count of it, or its row sum) is among the items the step
/// reports for rescoring.
pub proof fn law_changed_rows_are_touched(v: SampleView, user: int, item: u32, slot: int)
    requires
        0 <= user < v.num_users(),
    ensures
        forall|a: u32, b: u32|
            #[trigger] v.step(user, item, slot).cooccurrence(a, b) != v.cooccurrence(a, b) ==> v.touched(
                user,
                item,
                slot,
            ).contains(a),
        forall|a: u32|
            #[trigger] v.step(user, item, slot).row_sum(a) != v.row_sum(a) ==> v.touched(
                user,
                item,
                slot,
            ).contains(a),
{
    let h = v.histories[user];
    let s = v.counted(user);
    if v.occurrences(item) < F_MAX && h.len() < K_MAX {
        lemma_pushed_counts(s, user, item);
        assert forall|a: u32| count(h, a) > 0 implies #[trigger] v.touched(user, item, slot).contains(
            a,
        ) by {
            lemma_count_contains(h, a);
        }
        assert forall|a: u32, b: u32|
            #[trigger] v.step(user, item, slot).cooccurrence(a, b) != v.cooccurrence(a, b) implies v.touched(
                user,
                item,
                slot,
            ).contains(a) by {
            if a != item {
                assert(count(h, a) > 0);
            }
        }
        assert forall|a: u32|
            #[trigger] v.step(user, item, slot).row_sum(a) != v.row_sum(a) implies v.touched(
                user,
                item,
                slot,
            ).contains(a) by {
            if a != item {
                assert(count(h, a) > 0);
            }
        }
    } else if v.occurrences(item) < F_MAX && 0 <= slot < h.len() {
        lemma_replaced_counts(s, user, slot, item);
        let p = h[slot];
        assert forall|a: u32| rest_count(h, slot, a) > 0 implies #[trigger] v.touched(
            user,
            item,
            slot,
        ).contains(a) by {
            lemma_count_remove(h, slot, a);
            lemma_count_contains(h.remove(slot), a);
        }
        assert forall|a: u32, b: u32|
            #[trigger] v.step(user, item, slot).cooccurrence(a, b) != v.cooccurrence(a, b) implies v.touched(
                user,
                item,
                slot,
            ).contains(a) by {
            if a != item && a != p {
                assert(rest_count(h, slot, a) > 0);
            }
        }
        assert forall|a: u32|
            #[trigger] v.step(user, item, slot).row_sum(a) != v.row_sum(a) implies v.touched(
                user,
                item,
                slot,
            ).contains(a) by {}
    }
}

/// The items a step reports are items of the user's history before the step
/// or the item of the interaction.
pub proof fn law_touched_items_come_from_the_history(v: SampleView, user: int, item: u32, slot: int)
    requires
        0 <= user < v.num_users(),
    ensures
        forall|a: u32|
            #[trigger] v.touched(user, item, slot).contains(a) ==> a == item || v.histories[user].contains(
                a,
            ),
{
    let h = v.histories[user];
    assert forall|a: u32|
        #[trigger] v.touched(user, item, slot).contains(a) implies a == item || h.contains(a) by {
        if v.occurrences(item) < F_MAX && h.len() >= K_MAX && 0 <= slot < h.len() && a != item && a
            != h[slot] {
            let r = h.remove(slot);
            let j = choose|j: int| 0 <= j < r.len() && r[j] == a;
            if j < slot {
                assert(h[j] == a);
            } else {
                assert(h[j + 1] == a);
            }
        }
    }
}

/// An item under its cap is appended to a history with room for it, whatever
/// the history already holds: the user's history becomes the old one with the
/// item at its end, and the item is sampled once more.
pub proof fn law_history_with_room_appends(v: SampleView, user: int, item: u32, slot: int)
    requires
        0 <= user < v.num_users(),
        v.occurrences(item) < F_MAX,
        v.histories[user].len() < K_MAX,
    ensures
        v.step(user, item, slot).histories[user] == v.histories[user].push(item),
        v.step(user, item, slot).occurrences(item) == v.occurrences(item) + 1,
{
    lemma_pushed_counts(v.counted(user), user, item);
}

/// A full history gives up the drawn slot to an item under its cap whenever
/// the slot lies inside it, whatever the history holds: the user's history
/// becomes the old one with the item written at the slot, the item is sampled
/// once more and the item that held the slot once less.
pub proof fn law_full_history_replaces_drawn_slot(v: SampleView, user: int, item: u32, slot: int)
    requires
        0 <= user < v.num_users(),
        v.occurrences(item) < F_MAX,
        v.histories[user].len() >= K_MAX,
        0 <= slot < v.histories[user].len(),
    ensures
        v.step(user, item, slot).histories[user] == v.histories[user].update(slot, item),
        v.step(user, item, slot).histories[user][slot] == item,
        v.step(user, item, slot).occurrences(item) == v.occurrences(item) + 1 - ind(
            v.histories[user][slot] == item,
        ),
        v.step(user, item, slot).occurrences(v.histories[user][slot]) == v.occurrences(
            v.histories[user][slot],
        ) - 1 + ind(v.histories[user][slot] == item),
{
    lemma_replaced_counts(v.counted(user), user, slot, item);
}

/// A draw outside a full history drops the interaction: no history changes
/// and nothing is reported.
pub proof fn law_full_history_ignores_draw_outside(v: SampleView, user: int, item: u32, slot: int)
    requires
        0 <= user < v.num_users(),
        v.histories[user].len() >= K_MAX,
        !(0 <= slot < v.histories[user].len()),
    ensures
        v.step(user, item, slot).histories == v.histories,
        v.touched(user, item, slot) == Set::<u32>::empty(),
{
}

/// The items at the first `t` positions of `h` other than `k`.
pub open spec fn except_set(h: Seq<u32>, k: int, t: int) -> Set<u32> {
    Set::new(|v: u32| exists|j: int| 0 <= j < t && j != k && h[j] == v)
}

/// All positions of `h` but `k` hold exactly the items of `h` with `k` removed.
pub proof fn lemma_except_set_full(h: Seq<u32>, k: int)
    requires
        0 <= k < h.len(),
    ensures
        except_set(h, k, h.len() as int) == h.remove(k).to_set(),
{
    let r = h.remove(k);
    assert forall|v: u32| #[trigger] except_set(h, k, h.len() as int).contains(v) <==> r.to_set().contains(v) by {
        if except_set(h, k, h.len() as int).contains(v) {
            let j = choose|j: int| 0 <= j < h.len() && j != k && h[j] == v;
            if j < k {
                assert(r[j] == v);
            } else {
                assert(r[j - 1] == v);
            }
        }
        if r.to_set().contains(v) {
            let i = choose|i: int| 0 <= i < r.len() && r[i] == v;
            if i < k {
                assert(h[i] == v);
            } else {
                assert(h[i + 1] == v);
            }
        }
    }
    assert(except_set(h, k, h.len() as int) =~= r.to_set());
}

/// What appending `x` to the history of user `u` does to every count.
pub proof fn lemma_pushed_counts(v: SampleView, u: int, x: u32)
    requires
        0 <= u < v.num_users(),
    ensures
        forall|a: u32, b: u32|
            #[trigger] v.pushed(u, x).cooccurrence(a, b) == v.cooccurrence(a, b) + only_if(
                a == x,
                count(v.histories[u], b) as int,
            ) + only_if(b == x, count(v.histories[u], a) as int),
        forall|a: u32|
            #[trigger] v.pushed(u, x).row_sum(a) == v.row_sum(a) + count(v.histories[u], a) + only_if(
                a == x,
                v.histories[u].len() as int,
            ),
        forall|a: u32| #[trigger] v.pushed(u, x).occurrences(a) == v.occurrences(a) + ind(a == x),
        v.pushed(u, x).total() == v.total() + 2 * v.histories[u].len(),
{
    let h = v.histories[u];
    let g = h.push(x);
    assert forall|a: u32, b: u32|
        #[trigger] v.pushed(u, x).cooccurrence(a, b) == v.cooccurrence(a, b) + only_if(
            a == x,
            count(h, b) as int,
        ) + only_if(b == x, count(h, a) as int) by {
        lemma_sum_update(v.histories, u, g, Tally::Pairs(a, b));
        lemma_tallies_push(h, x, a, b);
    }
    assert forall|a: u32|
        #[trigger] v.pushed(u, x).row_sum(a) == v.row_sum(a) + count(h, a) + only_if(
            a == x,
            h.len() as int,
        ) by {
        lemma_sum_update(v.histories, u, g, Tally::RowPairs(a));
        lemma_tallies_push(h, x, a, a);
    }
    assert forall|a: u32| #[trigger] v.pushed(u, x).occurrences(a) == v.occurrences(a) + ind(a == x) by {
        lemma_sum_update(v.histories, u, g, Tally::Occurrences(a));
        lemma_count_push(h, x, a);
    }
    lemma_sum_update(v.histories, u, g, Tally::AllPairs);
    lemma_tallies_push(h, x, x, x);
}

/// What overwriting position `k` of the history of user `u` with `x` does
/// to every count, in terms of the counts of the other positions.
pub proof fn lemma_replaced_counts(v: SampleView, u: int, k: int, x: u32)
    requires
        0 <= u < v.num_users(),
        0 <= k < v.histories[u].len(),
    ensures
        ({
            let h = v.histories[u];
            let p = h[k];
            &&& forall|a: u32, b: u32|
                #[trigger] v.replaced(u, k, x).cooccurrence(a, b) == v.cooccurrence(a, b) + only_if(
                    a == x,
                    rest_count(h, k, b),
                ) + only_if(b == x, rest_count(h, k, a)) - only_if(a == p, rest_count(h, k, b)) - only_if(
                    b == p,
                    rest_count(h, k, a),
                )
            &&& forall|a: u32, b: u32|
                only_if(a == p, rest_count(h, k, b)) + only_if(b == p, rest_count(h, k, a))
                    <= #[trigger] v.cooccurrence(a, b)
            &&& forall|a: u32| 0 <= #[trigger] rest_count(h, k, a)
            &&& forall|a: u32|
                #[trigger] v.replaced(u, k, x).row_sum(a) == v.row_sum(a) + only_if(a == x, h.len() - 1)
                    - only_if(a == p, h.len() - 1)
            &&& forall|a: u32|
                #[trigger] v.replaced(u, k, x).occurrences(a) == v.occurrences(a) - ind(p == a) + ind(
                    x == a,
                )
            &&& v.replaced(u, k, x).total() == v.total()
            &&& v.row_sum(p) >= h.len() - 1
        }),
{
    let h = v.histories[u];
    let p = h[k];
    let g = h.update(k, x);
    assert forall|a: u32, b: u32|
        #[trigger] v.replaced(u, k, x).cooccurrence(a, b) == v.cooccurrence(a, b) + only_if(
            a == x,
            rest_count(h, k, b),
        ) + only_if(b == x, rest_count(h, k, a)) - only_if(a == p, rest_count(h, k, b)) - only_if(
            b == p,
            rest_count(h, k, a),
        ) by {
        lemma_sum_update(v.histories, u, g, Tally::Pairs(a, b));
        lemma_tallies_update(h, k, x, a, b);
    }
    assert forall|a: u32, b: u32|
        only_if(a == p, rest_count(h, k, b)) + only_if(b == p, rest_count(h, k, a))
            <= #[trigger] v.cooccurrence(a, b) by {
        lemma_sum_ge_term(v.histories, u, Tally::Pairs(a, b));
        lemma_tallies_update(h, k, x, a, b);
    }
    assert forall|a: u32| 0 <= #[trigger] rest_count(h, k, a) by {
        lemma_tallies_update(h, k, x, a, a);
    }
    assert forall|a: u32|
        #[trigger] v.replaced(u, k, x).row_sum(a) == v.row_sum(a) + only_if(a == x, h.len() - 1) - only_if(
            a == p,
            h.len() - 1,
        ) by {
        lemma_sum_update(v.histories, u, g, Tally::RowPairs(a));
        lemma_tallies_update(h, k, x, a, a);
    }
    assert forall|a: u32|
        #[trigger] v.replaced(u, k, x).occurrences(a) == v.occurrences(a) - ind(p == a) + ind(
            x == a,
        ) by {
        lemma_sum_update(v.histories, u, g, Tally::Occurrences(a));
        lemma_count_update(h, k, x, a);
    }
    lemma_sum_update(v.histories, u, g, Tally::AllPairs);
    lemma_tallies_update(h, k, x, x, x);
    lemma_sum_ge_term(v.histories, u, Tally::RowPairs(p));
    lemma_count_at(h, k);
    lemma_count_bounds(h, p, p);
    let cp = count(h, p) as int;
    let l = h.len() as int;
    assert(cp * (l - 1) >= l - 1) by (nonlinear_arith)
        requires
            cp >= 1,
            l >= 1,
    ;
}

/// Adds one to the entry of row `a` for `b`, unless it already holds the
/// largest `u16`.
fn increment_cell(c: &mut Vec<FnvHashMap<u32, u16>>, a: usize, b: u32) -> (ok: bool)
    requires
        a < old(c)@.len(),
    ensures
        final(c)@.len() == old(c)@.len(),
        ok == (cell(old(c)@[a as int]@, b) < u16::MAX),
        ok ==> final(c)@[a as int]@ == old(c)@[a as int]@.insert(
            b,
            (cell(old(c)@[a as int]@, b) + 1) as u16,
        ),
        !ok ==> final(c)@ == old(c)@,
        forall|i: int| 0 <= i < old(c)@.len() && i != a ==> final(c)@[i] == old(c)@[i],
{
    let cur = match fnv_map_get(&c[a], b) {
        Some(n) => n,
        None => 0,
    };
    if cur == u16::MAX {
        return false;
    }
    fnv_map_insert(&mut c[a], b, cur + 1);
    true
}

/// Takes one from the entry of row `a` for `b`, which holds at least one.
fn decrement_cell(c: &mut Vec<FnvHashMap<u32, u16>>, a: usize, b: u32)
    requires
        a < old(c)@.len(),
        cell(old(c)@[a as int]@, b) >= 1,
    ensures
        final(c)@.len() == old(c)@.len(),
        final(c)@[a as int]@ == old(c)@[a as int]@.insert(b, (cell(old(c)@[a as int]@, b) - 1) as u16),
        forall|i: int| 0 <= i < old(c)@.len() && i != a ==> final(c)@[i] == old(c)@[i],
{
    let cur = match fnv_map_get(&c[a], b) {
        Some(n) => n,
        None => 0,
    };
    fnv_map_insert(&mut c[a], b, cur - 1);
}

/// Histories that are all empty count nothing.
pub proof fn lemma_sum_empty_histories(hs: Seq<Seq<u32>>, t: Tally)
    requires
        forall|u: int| 0 <= u < hs.len() ==> #[trigger] hs[u].len() == 0,
    ensures
        sum_tally(hs, t) == 0,
    decreases hs.len(),
{
    if hs.len() > 0 {
        lemma_sum_empty_histories(hs.drop_last(), t);
        let h = hs.last();
        assert(h.len() == 0);
        assert forall|v: u32| count(h, v) == 0 by {}
    }
}

} // verus!
