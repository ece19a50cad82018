//! The indicators of an item: the `k` best-scoring of its candidates.
//!
//! Candidates arrive one at a time; the selection keeps at most `k` of them,
//! and a new candidate takes the place of the lowest-scoring kept one only
//! when it scores strictly higher. Scores are integers that order candidates
//! as their likelihood-ratio scores do.
use vstd::prelude::*;

verus! {

broadcast use {vstd::seq_lib::group_to_multiset_ensures, vstd::multiset::group_multiset_axioms};

/// An item with the score by which it is ranked.
#[derive(Clone, Copy, PartialEq, Eq, Structural, Debug)]
pub struct Candidate {
    pub item: u32,
    pub score: u64,
}

/// The scores of `s` do not increase.
pub open spec fn descending(s: Seq<Candidate>) -> bool {
    forall|i: int, j: int| 0 <= i < j < s.len() ==> #[trigger] s[i].score >= #[trigger] s[j].score
}

/// The candidates of `s` whose score is `v`, in the order of `s`.
pub open spec fn with_score(s: Seq<Candidate>, v: u64) -> Seq<Candidate>
    decreases s.len(),
{
    if s.len() == 0 {
        Seq::empty()
    } else if s.last().score == v {
        with_score(s.drop_last(), v).push(s.last())
    } else {
        with_score(s.drop_last(), v)
    }
}

pub proof fn lemma_with_score_push(s: Seq<Candidate>, c: Candidate, v: u64)
    ensures
        with_score(s.push(c), v) == (if c.score == v {
            with_score(s, v).push(c)
        } else {
            with_score(s, v)
        }),
{
    assert(s.push(c).drop_last() =~= s);
}

pub proof fn lemma_with_score_append(a: Seq<Candidate>, b: Seq<Candidate>, v: u64)
    ensures
        with_score(a + b, v) == with_score(a, v) + with_score(b, v),
    decreases b.len(),
{
    if b.len() == 0 {
        assert(a + b =~= a);
        assert(with_score(a, v) + with_score(b, v) =~= with_score(a, v));
    } else {
        lemma_with_score_append(a, b.drop_last(), v);
        assert((a + b).drop_last() =~= a + b.drop_last());
        assert((a + b).last() == b.last());
        if b.last().score == v {
            assert(with_score(a, v) + with_score(b.drop_last(), v).push(b.last()) =~= (with_score(
                a,
                v,
            ) + with_score(b.drop_last(), v)).push(b.last()));
        }
    }
}

pub proof fn lemma_with_score_none(s: Seq<Candidate>, v: u64)
    requires
        forall|i: int| 0 <= i < s.len() ==> #[trigger] s[i].score != v,
    ensures
        with_score(s, v) == Seq::<Candidate>::empty(),
    decreases s.len(),
{
    if s.len() > 0 {
        lemma_with_score_none(s.drop_last(), v);
    }
}

/// Inserting `c` into `s` where every candidate before position `pos` scores
/// at least as much as `c` and every one from `pos` on scores less appends
/// `c` to the candidates of its score and changes no other score's.
pub proof fn lemma_with_score_insert(s: Seq<Candidate>, pos: int, c: Candidate, v: u64)
    requires
        0 <= pos <= s.len(),
        forall|i: int| pos <= i < s.len() ==> #[trigger] s[i].score < c.score,
    ensures
        with_score(s.insert(pos, c), v) == (if c.score == v {
            with_score(s, v).push(c)
        } else {
            with_score(s, v)
        }),
{
    let a = s.subrange(0, pos);
    let b = s.subrange(pos, s.len() as int);
    assert(s =~= a + b);
    assert(s.insert(pos, c) =~= a.push(c) + b);
    lemma_with_score_append(a, b, v);
    lemma_with_score_append(a.push(c), b, v);
    lemma_with_score_push(a, c, v);
    if c.score == v {
        lemma_with_score_none(b, v);
        assert(with_score(a, v) + with_score(b, v) =~= with_score(a, v));
        assert(with_score(a.push(c), v) + with_score(b, v) =~= with_score(a.push(c), v));
    }
}

/// For every score, the kept candidates of that score are the first ones of
/// that score among `seen`, in their order; and where some of them were
/// dropped, the selection is full and keeps nothing that scores lower.
pub open spec fn keeps_earliest(kept: Seq<Candidate>, seen: Seq<Candidate>, k: nat) -> bool {
    forall|v: u64|
        {
            &&& with_score(kept, v).len() <= #[trigger] with_score(seen, v).len()
            &&& with_score(kept, v) == with_score(seen, v).take(with_score(kept, v).len() as int)
            &&& with_score(kept, v).len() < with_score(seen, v).len() ==> kept.len() == k && forall|
                j: int,
            | 0 <= j < kept.len() ==> #[trigger] kept[j].score >= v
        }
}

/// One offer keeps `keeps_earliest`.
proof fn lemma_keeps_earliest_step(
    before: Seq<Candidate>,
    after: Seq<Candidate>,
    seen: Seq<Candidate>,
    c: Candidate,
    k: nat,
)
    requires
        k > 0,
        before.len() <= k,
        descending(before),
        keeps_earliest(before, seen, k),
        before.len() < k ==> forall|v: u64|
            #[trigger] with_score(after, v) == (if v == c.score {
                with_score(before, v).push(c)
            } else {
                with_score(before, v)
            }),
        before.len() == k && c.score > before.last().score ==> forall|v: u64|
            #[trigger] with_score(after, v) == (if v == c.score {
                with_score(before.drop_last(), v).push(c)
            } else {
                with_score(before.drop_last(), v)
            }),
        before.len() == k && c.score > before.last().score ==> forall|j: int|
            0 <= j < after.len() ==> #[trigger] after[j].score >= before.last().score,
        before.len() == k && c.score <= before.last().score ==> after == before,
        after.len() == (if before.len() < k {
            before.len() + 1
        } else {
            before.len()
        }),
    ensures
        keeps_earliest(after, seen.push(c), k),
{
    assert forall|v: u64|
        {
            &&& with_score(after, v).len() <= #[trigger] with_score(seen.push(c), v).len()
            &&& with_score(after, v) == with_score(seen.push(c), v).take(
                with_score(after, v).len() as int,
            )
            &&& with_score(after, v).len() < with_score(seen.push(c), v).len() ==> after.len() == k
                && forall|j: int| 0 <= j < after.len() ==> #[trigger] after[j].score >= v
        } by {
        lemma_with_score_push(seen, c, v);
        let kb = with_score(before, v);
        let sb = with_score(seen, v);
        let ka = with_score(after, v);
        let sa = with_score(seen.push(c), v);
        assert(kb.len() <= sb.len() && kb == sb.take(kb.len() as int));
        if before.len() < k {
            assert(kb.len() == sb.len());
            assert(kb =~= sb);
            assert(ka =~= sa);
        } else if c.score <= before.last().score {
            assert(before.len() > 0);
            assert(sa.take(ka.len() as int) =~= sb.take(kb.len() as int));
            if v == c.score {
                assert forall|j: int| 0 <= j < after.len() implies #[trigger] after[j].score >= v by {
                    assert(before[j].score >= before[before.len() - 1].score);
                }
            }
        } else {
            let m = before.last();
            assert(before.len() > 0);
            assert(before.drop_last().push(m) =~= before);
            lemma_with_score_push(before.drop_last(), m, v);
            let kd = with_score(before.drop_last(), v);
            if v == c.score {
                if kb.len() < sb.len() {
                    assert(before[before.len() - 1].score >= v);
                    assert(false);
                }
                assert(kb =~= sb);
                assert(kd == kb);
                assert(ka =~= sa);
            } else if v == m.score {
                assert(kb == kd.push(m));
                assert(ka == kd);
                assert(sa == sb);
                assert(ka =~= sa.take(ka.len() as int));
            } else {
                assert(kd == kb);
                assert(ka == kb);
                assert(sa == sb);
                if ka.len() < sa.len() {
                    assert(m.score >= v);
                    assert forall|j: int| 0 <= j < after.len() implies #[trigger] after[j].score >= v by {
                        assert(after[j].score >= m.score);
                    }
                }
            }
        }
    }
}

/// The kept candidates, at most `k` of them, best first.
pub struct TopK {
    k: usize,
    kept: Vec<Candidate>,
}

impl TopK {
    pub closed spec fn capacity(&self) -> nat {
        self.k as nat
    }

    /// The kept candidates, best first.
    pub closed spec fn kept(&self) -> Seq<Candidate> {
        self.kept@
    }

    pub closed spec fn wf(&self) -> bool {
        &&& self.kept@.len() <= self.k
        &&& descending(self.kept@)
    }

    /// An empty selection of at most `k` candidates.
    pub fn new(k: usize) -> (t: Self)
        ensures
            t.wf(),
            t.capacity() == k,
            t.kept() == Seq::<Candidate>::empty(),
    {
        TopK { k, kept: Vec::new() }
    }

    /// Offers `c`: it is kept while fewer than `k` candidates are; otherwise
    /// it replaces the lowest-scoring kept candidate when it scores strictly
    /// higher, and is dropped when it does not.
    pub fn offer(&mut self, c: Candidate)
        requires
            old(self).wf(),
            old(self).capacity() > 0,
        ensures
            final(self).wf(),
            final(self).capacity() == old(self).capacity(),
            final(self).kept().len() == (if old(self).kept().len() < old(self).capacity() {
                old(self).kept().len() + 1
            } else {
                old(self).kept().len()
            }),
            old(self).kept().len() < old(self).capacity() ==> final(self).kept().to_multiset()
                == old(self).kept().to_multiset().insert(c),
            old(self).kept().len() == old(self).capacity() && c.score > old(self).kept().last().score
                ==> final(self).kept().to_multiset() == old(self).kept().to_multiset().remove(
                old(self).kept().last(),
            ).insert(c),
            old(self).kept().len() == old(self).capacity() && c.score <= old(self).kept().last().score
                ==> final(self).kept() == old(self).kept(),
            old(self).kept().len() < old(self).capacity() ==> forall|v: u64|
                #[trigger] with_score(final(self).kept(), v) == (if v == c.score {
                    with_score(old(self).kept(), v).push(c)
                } else {
                    with_score(old(self).kept(), v)
                }),
            old(self).kept().len() == old(self).capacity() && c.score > old(self).kept().last().score
                ==> forall|v: u64|
                #[trigger] with_score(final(self).kept(), v) == (if v == c.score {
                    with_score(old(self).kept().drop_last(), v).push(c)
                } else {
                    with_score(old(self).kept().drop_last(), v)
                }),
            old(self).kept().len() == old(self).capacity() && c.score > old(self).kept().last().score
                ==> forall|j: int|
                0 <= j < final(self).kept().len() ==> #[trigger] final(self).kept()[j].score
                    >= old(self).kept().last().score,
    {
        let n = self.kept.len();
        if n == self.k {
            if c.score <= self.kept[n - 1].score {
                return;
            }
            let ghost before = self.kept@;
            self.kept.pop();
            proof {
                assert(before =~= self.kept@.push(before.last()));
                assert(self.kept@ =~= before.drop_last());
                assert(self.kept@.to_multiset() == before.to_multiset().remove(before.last()));
            }
        }
        let ghost mid = self.kept@;
        let ghost floor: u64 = if n == self.k { old(self).kept@.last().score } else { 0 };
        proof {
            if n == self.k {
                assert forall|i: int| 0 <= i < mid.len() implies #[trigger] mid[i].score >= floor by {
                    assert(mid[i] == old(self).kept@[i]);
                }
            }
        }
        let len = self.kept.len();
        let mut pos: usize = 0;
        while pos < len && self.kept[pos].score >= c.score
            invariant
                0 <= pos <= len,
                len == self.kept@.len(),
                self.kept@ == mid,
                forall|i: int| 0 <= i < pos ==> #[trigger] mid[i].score >= c.score,
            decreases len - pos,
        {
            pos += 1;
        }
        self.kept.insert(pos, c);
        proof {
            let s = self.kept@;
            assert(s == mid.insert(pos as int, c));
            vstd::seq_lib::to_multiset_insert(mid, pos as int, c);
            assert forall|i: int| pos <= i < mid.len() implies #[trigger] mid[i].score < c.score by {
                assert(mid[pos as int].score < c.score);
                assert(mid[pos as int].score >= mid[i].score);
            }
            if n == self.k {
                assert forall|j: int| 0 <= j < s.len() implies #[trigger] s[j].score >= floor by {
                    if j < pos {
                        assert(s[j] == mid[j]);
                    } else if j > pos {
                        assert(s[j] == mid[j - 1]);
                    }
                }
            }
            assert forall|v: u64| #[trigger] with_score(s, v) == (if v == c.score {
                with_score(mid, v).push(c)
            } else {
                with_score(mid, v)
            }) by {
                lemma_with_score_insert(mid, pos as int, c, v);
            }
            assert forall|i: int, j: int| 0 <= i < j < s.len() implies #[trigger] s[i].score
                >= #[trigger] s[j].score by {
                if j < pos {
                    assert(s[i] == mid[i] && s[j] == mid[j]);
                } else if j == pos {
                    assert(s[i] == mid[i]);
                } else if i < pos {
                    assert(s[i] == mid[i] && s[j] == mid[j - 1]);
                    assert(mid[i].score >= mid[j - 1].score);
                } else if i == pos {
                    assert(s[j] == mid[j - 1]);
                    assert(mid[pos as int].score < c.score);
                    assert(mid[pos as int].score >= mid[j - 1].score);
                } else {
                    assert(s[i] == mid[i - 1] && s[j] == mid[j - 1]);
                }
            }
        }
    }

    /// The kept candidates, best first.
    pub fn into_sorted_vec(self) -> (v: Vec<Candidate>)
        ensures
            v@ == self.kept(),
    {
        self.kept
    }
}

/// Offers each of `candidates` in turn to a selection of at most `k`, and
/// returns what is kept, best first. The kept candidates are `min(k, n)` of
/// the `n` candidates, and none of the others scores higher than any of
/// them; of the candidates with one score, the kept ones are the earliest in
/// `candidates`, in their order, so a later candidate never displaces an
/// earlier one of equal score.
pub fn select_top_k(candidates: &Vec<Candidate>, k: usize) -> (kept: Vec<Candidate>)
    requires
        k > 0 || candidates@.len() == 0,
    ensures
        kept@.len() == (if candidates@.len() < k {
            candidates@.len()
        } else {
            k as nat
        }),
        descending(kept@),
        kept@.to_multiset().subset_of(candidates@.to_multiset()),
        forall|c: Candidate, i: int|
            #![trigger candidates@.to_multiset().sub(kept@.to_multiset()).count(c), kept@[i]]
            candidates@.to_multiset().sub(kept@.to_multiset()).count(c) > 0 && 0 <= i < kept@.len()
                ==> c.score <= kept@[i].score,
        forall|v: u64|
            #[trigger] with_score(kept@, v) == with_score(candidates@, v).take(
                with_score(kept@, v).len() as int,
            ),
{
    let mut sel = TopK::new(k);
    let ghost mut dropped: Seq<Candidate> = Seq::empty();
    let n = candidates.len();
    let mut t: usize = 0;
    proof {
        assert(candidates@.take(0) =~= Seq::<Candidate>::empty());
        assert(sel.kept() =~= Seq::<Candidate>::empty());
        let e = Seq::<Candidate>::empty();
        assert forall|v: u64| #[trigger] with_score(e, v) == e by {}
        assert forall|v: u64| with_score(e, v) =~= #[trigger] with_score(e, v).take(0) by {}
        assert(keeps_earliest(sel.kept(), candidates@.take(0), k as nat));
    }
    while t < n
        invariant
            0 <= t <= n,
            n == candidates@.len(),
            k > 0 || n == 0,
            sel.wf(),
            sel.capacity() == k,
            sel.kept().len() == (if t < k {
                t as nat
            } else {
                k as nat
            }),
            dropped.len() + sel.kept().len() == t,
            keeps_earliest(sel.kept(), candidates@.take(t as int), k as nat),
            sel.kept().to_multiset().add(dropped.to_multiset()) == candidates@.take(
                t as int,
            ).to_multiset(),
            forall|i: int, j: int|
                0 <= i < dropped.len() && 0 <= j < sel.kept().len() ==> #[trigger] dropped[i].score
                    <= #[trigger] sel.kept()[j].score,
        decreases n - t,
    {
        let c = candidates[t];
        let ghost before = sel.kept();
        proof {
            assert(candidates@.take(t + 1) =~= candidates@.take(t as int).push(c));
        }
        sel.offer(c);
        proof {
            let after = sel.kept();
            lemma_keeps_earliest_step(before, after, candidates@.take(t as int), c, k as nat);
            if before.len() < k {
                assert(after.to_multiset().add(dropped.to_multiset()) =~= candidates@.take(
                    t + 1,
                ).to_multiset());
                assert(dropped.len() == 0);
            } else if c.score > before.last().score {
                let m = before.last();
                let d2 = dropped.push(m);
                assert(before.to_multiset().count(m) > 0) by {
                    assert(before[before.len() - 1] == m);
                }
                assert(after.to_multiset().add(d2.to_multiset()) =~= candidates@.take(
                    t + 1,
                ).to_multiset());
                assert forall|i: int, j: int|
                    0 <= i < d2.len() && 0 <= j < after.len() implies #[trigger] d2[i].score
                        <= #[trigger] after[j].score by {
                    assert(after.to_multiset().count(after[j]) > 0);
                    if after[j] != c {
                        assert(after.to_multiset().count(after[j]) == before.to_multiset().remove(
                            m,
                        ).count(after[j]));
                        assert(before.contains(after[j]));
                        let q = choose|q: int| 0 <= q < before.len() && before[q] == after[j];
                        assert(before[q].score >= m.score);
                        if i < dropped.len() {
                            assert(dropped[i].score <= before[q].score);
                        }
                    } else {
                        if i < dropped.len() {
                            assert(dropped[i].score <= m.score);
                        }
                    }
                }
                dropped = d2;
            } else {
                let d2 = dropped.push(c);
                assert(after.to_multiset().add(d2.to_multiset()) =~= candidates@.take(
                    t + 1,
                ).to_multiset());
                assert forall|i: int, j: int|
                    0 <= i < d2.len() && 0 <= j < after.len() implies #[trigger] d2[i].score
                        <= #[trigger] after[j].score by {
                    if i == dropped.len() {
                        assert(after[j].score >= after[after.len() - 1].score);
                    }
                }
                dropped = d2;
            }
        }
        t += 1;
    }
    let kept = sel.into_sorted_vec();
    proof {
        assert(candidates@.take(n as int) =~= candidates@);
        let km = kept@.to_multiset();
        let dm = dropped.to_multiset();
        let cm = candidates@.to_multiset();
        assert(km.add(dm) == cm);
        assert(km.subset_of(cm));
        assert(cm.sub(km) =~= dm);
        assert forall|c: Candidate, i: int|
            #![trigger cm.sub(km).count(c), kept@[i]]
            cm.sub(km).count(c) > 0 && 0 <= i < kept@.len() implies c.score <= kept@[i].score by {
            assert(dropped.contains(c));
            let q = choose|q: int| 0 <= q < dropped.len() && dropped[q] == c;
            assert(dropped[q].score <= kept@[i].score);
        }
    }
    kept
}

} // verus!
