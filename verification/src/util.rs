//! Bounded top-N selector: a fixed-capacity, min-oriented priority
//! structure holding `(weight, label)` records. After any sequence of
//! pushes it retains the largest-weight records seen so far, never
//! holding more than its capacity.

use vstd::multiset::Multiset;
use vstd::prelude::*;
use vstd::seq_lib::group_seq_properties;
use vstd::seq_lib::group_to_multiset_ensures;

verus! {

broadcast use group_seq_properties, group_to_multiset_ensures;

/// A weighted record: a byte weight and a path label.
#[derive(Debug)]
pub struct Info(pub u64, pub String);

impl View for Info {
    type V = (u64, Seq<char>);

    open spec fn view(&self) -> (u64, Seq<char>) {
        (self.0, self.1@)
    }
}

/// A record as it appears in specifications: weight and label.
pub type Rec = (u64, Seq<char>);

/// The records are ordered by weight, smallest first, so the current
/// minimum always sits at index 0.
pub open spec fn sorted_by_weight(s: Seq<Rec>) -> bool {
    forall|i: int, j: int| 0 <= i <= j < s.len() ==> #[trigger] s[i].0 <= #[trigger] s[j].0
}

/// Insertion into a weight-sorted sequence; a record is placed after
/// all records of equal weight.
pub open spec fn insert_sorted(s: Seq<Rec>, r: Rec) -> Seq<Rec>
    decreases s.len(),
{
    if s.len() == 0 {
        seq![r]
    } else if r.0 < s[0].0 {
        seq![r] + s
    } else {
        seq![s[0]] + insert_sorted(s.drop_first(), r)
    }
}

/// One push into a selector of capacity `limit` whose current contents
/// are `s`: below capacity the record is inserted; at capacity it
/// displaces the held minimum only if its weight is strictly greater;
/// otherwise (including a weight tie) it is discarded.
pub open spec fn push_model(s: Seq<Rec>, limit: nat, r: Rec) -> Seq<Rec> {
    if s.len() < limit {
        insert_sorted(s, r)
    } else if limit > 0 && r.0 > s[0].0 {
        insert_sorted(s.drop_first(), r)
    } else {
        s
    }
}

/// The contents of a selector of capacity `limit` after the given
/// sequence of pushes, starting empty.
pub open spec fn heap_model(limit: nat, pushes: Seq<Rec>) -> Seq<Rec>
    decreases pushes.len(),
{
    if pushes.len() == 0 {
        Seq::empty()
    } else {
        push_model(heap_model(limit, pushes.drop_last()), limit, pushes.last())
    }
}

/// Basic facts about `insert_sorted`: it adds exactly the given record,
/// keeps the sequence weight-sorted, and its first record carries the
/// smaller of the old minimum weight and the new weight.
pub proof fn lemma_insert_sorted_props(s: Seq<Rec>, r: Rec)
    ensures
        insert_sorted(s, r).len() == s.len() + 1,
        insert_sorted(s, r).to_multiset() == s.to_multiset().insert(r),
        sorted_by_weight(s) ==> sorted_by_weight(insert_sorted(s, r)),
        s.len() == 0 ==> insert_sorted(s, r) == seq![r],
        s.len() > 0 ==> insert_sorted(s, r)[0].0 == vstd::math::min(s[0].0 as int, r.0 as int),
    decreases s.len(),
{
    if s.len() == 0 {
        assert(seq![r] =~= Seq::<Rec>::empty().push(r));
        assert(Seq::<Rec>::empty().push(r).to_multiset() =~= s.to_multiset().insert(r));
    } else if r.0 < s[0].0 {
        let t = seq![r] + s;
        assert(t.to_multiset() =~= s.to_multiset().insert(r)) by {
            vstd::seq_lib::lemma_multiset_commutative(seq![r], s);
            assert(seq![r] =~= Seq::<Rec>::empty().push(r));
        }
        assert forall|i: int, j: int|
            sorted_by_weight(s) && 0 <= i <= j < t.len() implies #[trigger] t[i].0
            <= #[trigger] t[j].0 by {
            if i > 0 {
                assert(t[i] == s[i - 1]);
            }
        }
    } else {
        let d = s.drop_first();
        lemma_insert_sorted_props(d, r);
        let t = seq![s[0]] + insert_sorted(d, r);
        assert(insert_sorted(s, r) == t);
        vstd::seq_lib::lemma_multiset_commutative(seq![s[0]], insert_sorted(d, r));
        vstd::seq_lib::lemma_multiset_commutative(seq![s[0]], d);
        assert(seq![s[0]] + d =~= s);
        assert(seq![s[0]] =~= Seq::<Rec>::empty().push(s[0]));
        assert(t.to_multiset() =~= s.to_multiset().insert(r));
        if sorted_by_weight(s) {
            assert(forall|i: int, j: int|
                0 <= i <= j < d.len() ==> #[trigger] d[i].0 <= #[trigger] d[j].0);
            assert forall|i: int, j: int| 0 <= i <= j < t.len() implies #[trigger] t[i].0
                <= #[trigger] t[j].0 by {
                if i > 0 {
                    assert(t[i] == insert_sorted(d, r)[i - 1]);
                    assert(t[j] == insert_sorted(d, r)[j - 1]);
                } else if j > 0 {
                    assert(t[j] == insert_sorted(d, r)[j - 1]);
                    if d.len() > 0 {
                        assert(insert_sorted(d, r)[j - 1].0 >= vstd::math::min(
                            d[0].0 as int,
                            r.0 as int,
                        ));
                    }
                }
            }
        }
    }
}

/// Where the insertion point is known — every record before index `i`
/// weighs no more than `r`, and the record at `i` (if any) weighs
/// strictly more — `insert_sorted` is the three-piece concatenation
/// around that index.
pub proof fn lemma_insert_sorted_split(s: Seq<Rec>, r: Rec, i: int)
    requires
        0 <= i <= s.len(),
        forall|k: int| 0 <= k < i ==> (#[trigger] s[k]).0 <= r.0,
        i < s.len() ==> s[i].0 > r.0,
    ensures
        insert_sorted(s, r) == s.subrange(0, i) + seq![r] + s.subrange(i, s.len() as int),
    decreases i,
{
    if i == 0 {
        if s.len() == 0 {
            assert(insert_sorted(s, r) =~= s.subrange(0, 0) + seq![r] + s.subrange(0, 0));
        } else {
            assert(insert_sorted(s, r) =~= s.subrange(0, 0) + seq![r] + s.subrange(
                0,
                s.len() as int,
            ));
        }
    } else {
        let d = s.drop_first();
        assert(s[0].0 <= r.0);
        lemma_insert_sorted_split(d, r, i - 1);
        assert(d.subrange(0, i - 1) =~= s.subrange(1, i));
        assert(d.subrange(i - 1, d.len() as int) =~= s.subrange(i, s.len() as int));
        assert(seq![s[0]] + (s.subrange(1, i) + seq![r] + s.subrange(i, s.len() as int)) =~= s
            .subrange(0, i) + seq![r] + s.subrange(i, s.len() as int));
    }
}

/// The selector law: after any sequence of pushes into a selector of
/// capacity `limit`, the held records number `min(limit, pushes)`, are
/// weight-sorted, form a sub-multiset of the pushed records, and every
/// pushed record that is not held weighs no more than the held minimum.
pub proof fn lemma_top_n(limit: nat, pushes: Seq<Rec>)
    ensures
        heap_model(limit, pushes).len() == vstd::math::min(limit as int, pushes.len() as int),
        sorted_by_weight(heap_model(limit, pushes)),
        heap_model(limit, pushes).len() < limit ==> heap_model(limit, pushes).to_multiset()
            == pushes.to_multiset(),
        forall|r: Rec| #[trigger] heap_model(limit, pushes).to_multiset().count(r)
            <= pushes.to_multiset().count(r),
        forall|r: Rec|
            pushes.to_multiset().count(r) > #[trigger] heap_model(limit, pushes).to_multiset().count(r)
                && heap_model(limit, pushes).len() > 0 ==> r.0 <= heap_model(limit, pushes)[0].0,
    decreases pushes.len(),
{
    let h = heap_model(limit, pushes);
    if pushes.len() == 0 {
        assert(h.to_multiset() =~= pushes.to_multiset());
    } else {
        let p = pushes.drop_last();
        let x = pushes.last();
        let hp = heap_model(limit, p);
        lemma_top_n(limit, p);
        assert(p.push(x) =~= pushes);
        assert(pushes.to_multiset() == p.to_multiset().insert(x));
        if hp.len() < limit {
            assert(h == insert_sorted(hp, x));
            lemma_insert_sorted_props(hp, x);
            assert(h.to_multiset() =~= pushes.to_multiset());
        } else if limit > 0 && x.0 > hp[0].0 {
            let d = hp.drop_first();
            assert(h == insert_sorted(d, x));
            lemma_insert_sorted_props(d, x);
            assert(seq![hp[0]] + d =~= hp);
            vstd::seq_lib::lemma_multiset_commutative(seq![hp[0]], d);
            assert(seq![hp[0]] =~= Seq::<Rec>::empty().push(hp[0]));
            assert(hp.to_multiset() == d.to_multiset().insert(hp[0]));
            assert(h.to_multiset() == d.to_multiset().insert(x));
            // the new minimum is no smaller than the evicted one
            if h.len() > 0 {
                if d.len() > 0 {
                    assert(d[0] == hp[1]);
                    assert(hp[1].0 >= hp[0].0);
                    assert(h[0].0 >= hp[0].0);
                } else {
                    assert(h[0] == x);
                }
            }
            assert forall|r: Rec| #[trigger] h.to_multiset().count(r)
                <= pushes.to_multiset().count(r) by {
                assert(hp.to_multiset().count(r) <= p.to_multiset().count(r));
                assert(hp.to_multiset().count(r) == d.to_multiset().count(r) + if r == hp[0] {
                    1int
                } else {
                    0int
                });
            }
            assert forall|r: Rec|
                pushes.to_multiset().count(r) > #[trigger] h.to_multiset().count(r) && h.len() > 0
                implies r.0 <= h[0].0 by {
                if r == hp[0] {
                    assert(r.0 <= h[0].0);
                } else {
                    assert(h.to_multiset().count(r) == d.to_multiset().count(r) + if r == x {
                        1int
                    } else {
                        0int
                    });
                    assert(hp.to_multiset().count(r) == d.to_multiset().count(r));
                    assert(p.to_multiset().count(r) > hp.to_multiset().count(r));
                    assert(r.0 <= hp[0].0);
                }
            }
        } else {
            assert(h == hp);
            if limit > 0 {
                assert(hp.len() == limit);
                assert(x.0 <= hp[0].0);
            }
            assert forall|r: Rec|
                pushes.to_multiset().count(r) > #[trigger] h.to_multiset().count(r) && h.len() > 0
                implies r.0 <= h[0].0 by {
                if r != x {
                    assert(p.to_multiset().count(r) > hp.to_multiset().count(r));
                } else if p.to_multiset().count(r) > hp.to_multiset().count(r) {
                } else {
                    assert(r.0 <= hp[0].0);
                }
            }
        }
    }
}

/// The weights of a record sequence, in the same order.
pub open spec fn weights_of(s: Seq<Rec>) -> Seq<u64> {
    s.map_values(|r: Rec| r.0)
}

/// A weight sequence sorted smallest first.
pub open spec fn wsorted(s: Seq<u64>) -> bool {
    forall|i: int, j: int| 0 <= i <= j < s.len() ==> #[trigger] s[i] <= #[trigger] s[j]
}

/// Insertion of a weight into a weight sequence, after all weights
/// that do not exceed it; the weight-level shadow of `insert_sorted`.
pub open spec fn winsert(s: Seq<u64>, w: u64) -> Seq<u64>
    decreases s.len(),
{
    if s.len() == 0 {
        seq![w]
    } else if w < s[0] {
        seq![w] + s
    } else {
        seq![s[0]] + winsert(s.drop_first(), w)
    }
}

/// The fold step that insertion-sorts the weights of pushed records.
pub open spec fn wsort_step() -> spec_fn(Seq<u64>, Rec) -> Seq<u64> {
    |s: Seq<u64>, r: Rec| winsert(s, r.0)
}

/// All pushed weights, sorted smallest first.
pub open spec fn sorted_weights(pushes: Seq<Rec>) -> Seq<u64> {
    pushes.fold_left(Seq::<u64>::empty(), wsort_step())
}

/// The fold step that collects pushed weights as a multiset.
pub open spec fn wms_step() -> spec_fn(Multiset<u64>, Rec) -> Multiset<u64> {
    |m: Multiset<u64>, r: Rec| m.insert(r.0)
}

/// All pushed weights, as a multiset.
pub open spec fn weight_multiset(pushes: Seq<Rec>) -> Multiset<u64> {
    pushes.fold_left(Multiset::<u64>::empty(), wms_step())
}

proof fn lemma_winsert_props(s: Seq<u64>, w: u64)
    ensures
        winsert(s, w).len() == s.len() + 1,
        winsert(s, w).to_multiset() == s.to_multiset().insert(w),
        wsorted(s) ==> wsorted(winsert(s, w)),
    decreases s.len(),
{
    if s.len() == 0 {
        assert(seq![w] =~= Seq::<u64>::empty().push(w));
        assert(Seq::<u64>::empty().push(w).to_multiset() =~= s.to_multiset().insert(w));
    } else if w < s[0] {
        let t = seq![w] + s;
        assert(t.to_multiset() =~= s.to_multiset().insert(w)) by {
            vstd::seq_lib::lemma_multiset_commutative(seq![w], s);
            assert(seq![w] =~= Seq::<u64>::empty().push(w));
        }
        assert forall|i: int, j: int| wsorted(s) && 0 <= i <= j < t.len() implies #[trigger] t[i]
            <= #[trigger] t[j] by {
            if i > 0 {
                assert(t[i] == s[i - 1]);
            }
        }
    } else {
        let d = s.drop_first();
        lemma_winsert_props(d, w);
        let t = seq![s[0]] + winsert(d, w);
        assert(winsert(s, w) == t);
        vstd::seq_lib::lemma_multiset_commutative(seq![s[0]], winsert(d, w));
        vstd::seq_lib::lemma_multiset_commutative(seq![s[0]], d);
        assert(seq![s[0]] + d =~= s);
        assert(seq![s[0]] =~= Seq::<u64>::empty().push(s[0]));
        assert(t.to_multiset() =~= s.to_multiset().insert(w));
        if wsorted(s) {
            assert(wsorted(d));
            assert forall|i: int, j: int| 0 <= i <= j < t.len() implies #[trigger] t[i]
                <= #[trigger] t[j] by {
                if i > 0 {
                    assert(t[i] == winsert(d, w)[i - 1]);
                    assert(t[j] == winsert(d, w)[j - 1]);
                } else if j > 0 {
                    assert(t[j] == winsert(d, w)[j - 1]);
                    if d.len() > 0 {
                        assert(winsert(d, w).to_multiset().count(winsert(d, w)[j - 1]) > 0);
                        assert(d.to_multiset().insert(w).count(winsert(d, w)[j - 1]) > 0);
                        if winsert(d, w)[j - 1] != w {
                            assert(d.to_multiset().count(winsert(d, w)[j - 1]) > 0);
                            assert(d.contains(winsert(d, w)[j - 1]));
                        }
                    }
                }
            }
        }
    }
}

/// A sorted weight sequence is determined by its multiset: two sorted
/// sequences carrying the same weights are the same sequence.
pub proof fn lemma_sorted_weights_unique(s1: Seq<u64>, s2: Seq<u64>)
    requires
        wsorted(s1),
        wsorted(s2),
        s1.to_multiset() == s2.to_multiset(),
    ensures
        s1 == s2,
    decreases s1.len(),
{
    vstd::seq_lib::to_multiset_len::<u64>(s1);
    vstd::seq_lib::to_multiset_len::<u64>(s2);
    assert(s1.len() == s2.len());
    if s1.len() > 0 {
        assert(s1.contains(s1.last()));
        assert(s2.to_multiset().count(s1.last()) > 0);
        assert(s2.contains(s1.last()));
        assert(s2.contains(s2.last()));
        assert(s1.to_multiset().count(s2.last()) > 0);
        assert(s1.contains(s2.last()));
        let i1 = choose|i: int| 0 <= i < s1.len() && s1[i] == s2.last();
        let i2 = choose|i: int| 0 <= i < s2.len() && s2[i] == s1.last();
        assert(s1.last() >= s1[i1]);
        assert(s2.last() >= s2[i2]);
        assert(s1.last() == s2.last());
        assert(s1 =~= s1.drop_last().push(s1.last()));
        assert(s2 =~= s2.drop_last().push(s2.last()));
        assert(s1.drop_last().push(s1.last()).to_multiset() == s1.drop_last().to_multiset().insert(
            s1.last(),
        ));
        assert(s2.drop_last().push(s2.last()).to_multiset() == s2.drop_last().to_multiset().insert(
            s2.last(),
        ));
        assert forall|w: u64| #[trigger] s1.drop_last().to_multiset().count(w)
            == s2.drop_last().to_multiset().count(w) by {
            assert(s1.to_multiset().count(w) == s1.drop_last().to_multiset().insert(
                s1.last(),
            ).count(w));
            assert(s2.to_multiset().count(w) == s2.drop_last().to_multiset().insert(
                s2.last(),
            ).count(w));
        }
        assert(s1.drop_last().to_multiset() =~= s2.drop_last().to_multiset());
        lemma_sorted_weights_unique(s1.drop_last(), s2.drop_last());
        assert(s1 =~= s2);
    } else {
        assert(s1 =~= s2);
    }
}

/// The weights of a sorted-record insertion are the weight-level
/// insertion of the record's weight.
proof fn lemma_weights_insert(s: Seq<Rec>, r: Rec)
    ensures
        weights_of(insert_sorted(s, r)) == winsert(weights_of(s), r.0),
    decreases s.len(),
{
    if s.len() == 0 {
        assert(weights_of(insert_sorted(s, r)) =~= winsert(weights_of(s), r.0));
    } else if r.0 < s[0].0 {
        assert(weights_of(s)[0] == s[0].0);
        assert(weights_of(seq![r] + s) =~= seq![r.0] + weights_of(s));
    } else {
        lemma_weights_insert(s.drop_first(), r);
        assert(weights_of(s)[0] == s[0].0);
        assert(weights_of(s.drop_first()) =~= weights_of(s).drop_first());
        assert(weights_of(seq![s[0]] + insert_sorted(s.drop_first(), r)) =~= seq![s[0].0]
            + weights_of(insert_sorted(s.drop_first(), r)));
        assert(winsert(weights_of(s), r.0) == seq![s[0].0] + winsert(
            weights_of(s).drop_first(),
            r.0,
        ));
    }
}

proof fn lemma_sorted_weights_props(p: Seq<Rec>)
    ensures
        sorted_weights(p).len() == p.len(),
        wsorted(sorted_weights(p)),
        sorted_weights(p).to_multiset() == weight_multiset(p),
    decreases p.len(),
{
    if p.len() > 0 {
        lemma_sorted_weights_props(p.drop_last());
        lemma_winsert_props(sorted_weights(p.drop_last()), p.last().0);
    } else {
        assert(sorted_weights(p).to_multiset() =~= weight_multiset(p));
    }
}

/// The sorted pushed weights depend only on the multiset of pushes.
proof fn lemma_sorted_weights_permutation(p1: Seq<Rec>, p2: Seq<Rec>)
    requires
        p1.to_multiset() == p2.to_multiset(),
    ensures
        sorted_weights(p1) == sorted_weights(p2),
{
    let f = wms_step();
    assert(vstd::seq_lib::commutative_foldl(f)) by {
        assert forall|x: Rec, y: Rec, m: Multiset<u64>| #[trigger] f(f(m, x), y) == f(f(m, y), x) by {
            assert(f(f(m, x), y) =~= f(f(m, y), x));
        }
    }
    vstd::seq_lib::lemma_fold_left_permutation(p1, p2, f, Multiset::<u64>::empty());
    lemma_sorted_weights_props(p1);
    lemma_sorted_weights_props(p2);
    lemma_sorted_weights_unique(sorted_weights(p1), sorted_weights(p2));
}

/// Inserting a weight greater than `s[d]` leaves the first `d + 1`
/// weights alone and inserts into the rest.
proof fn lemma_winsert_skip_gt(s: Seq<u64>, d: int, w: u64)
    requires
        wsorted(s),
        0 <= d < s.len(),
        w > s[d],
    ensures
        winsert(s, w).skip(d + 1) == winsert(s.skip(d + 1), w),
    decreases d,
{
    assert(s[0] <= s[d]);
    assert(winsert(s, w) == seq![s[0]] + winsert(s.drop_first(), w));
    lemma_winsert_props(s.drop_first(), w);
    if d == 0 {
        assert(s.drop_first() =~= s.skip(1));
        assert((seq![s[0]] + winsert(s.drop_first(), w)).skip(1) =~= winsert(s.skip(1), w));
    } else {
        assert(wsorted(s.drop_first()));
        assert(s.drop_first()[d - 1] == s[d]);
        lemma_winsert_skip_gt(s.drop_first(), d - 1, w);
        assert(s.drop_first().skip(d) =~= s.skip(d + 1));
        assert((seq![s[0]] + winsert(s.drop_first(), w)).skip(d + 1) =~= winsert(
            s.drop_first(),
            w,
        ).skip(d));
    }
}

/// Inserting a weight of at most `s[d]` pushes the suffix one place:
/// past position `d`, the inserted sequence shows the old suffix.
proof fn lemma_winsert_skip_le(s: Seq<u64>, d: int, w: u64)
    requires
        wsorted(s),
        0 <= d < s.len(),
        w <= s[d],
    ensures
        winsert(s, w).skip(d + 1) == s.skip(d),
    decreases d,
{
    if w < s[0] {
        assert((seq![w] + s).skip(d + 1) =~= s.skip(d));
    } else {
        assert(winsert(s, w) == seq![s[0]] + winsert(s.drop_first(), w));
        lemma_winsert_props(s.drop_first(), w);
        if d == 0 {
            assert(w == s[0]);
            lemma_winsert_props(s.drop_first(), w);
            assert(winsert(s.drop_first(), w).to_multiset() =~= s.to_multiset()) by {
                assert(s =~= seq![s[0]] + s.drop_first());
                vstd::seq_lib::lemma_multiset_commutative(seq![s[0]], s.drop_first());
                assert(seq![s[0]] =~= Seq::<u64>::empty().push(s[0]));
            }
            assert(wsorted(s.drop_first()));
            lemma_sorted_weights_unique(winsert(s.drop_first(), w), s);
            assert((seq![s[0]] + winsert(s.drop_first(), w)).skip(1) =~= winsert(
                s.drop_first(),
                w,
            ));
            assert(s.skip(0) =~= s);
        } else {
            assert(wsorted(s.drop_first()));
            assert(s.drop_first()[d - 1] == s[d]);
            lemma_winsert_skip_le(s.drop_first(), d - 1, w);
            assert(s.drop_first().skip(d - 1) =~= s.skip(d));
            assert((seq![s[0]] + winsert(s.drop_first(), w)).skip(d + 1) =~= winsert(
                s.drop_first(),
                w,
            ).skip(d));
        }
    }
}

/// The selector's weights are canonical: after any pushes, they are
/// exactly the top `min(limit, pushes)` of all pushed weights, in
/// sorted order — the suffix of the sorted pushed weights.
pub proof fn lemma_heap_weights_canonical(limit: nat, pushes: Seq<Rec>)
    ensures
        weights_of(heap_model(limit, pushes)) == sorted_weights(pushes).skip(
            pushes.len() - vstd::math::min(limit as int, pushes.len() as int),
        ),
    decreases pushes.len(),
{
    let h = heap_model(limit, pushes);
    if pushes.len() == 0 {
        assert(weights_of(h) =~= sorted_weights(pushes).skip(0));
    } else {
        let p = pushes.drop_last();
        let x = pushes.last();
        let hp = heap_model(limit, p);
        let swp = sorted_weights(p);
        let sw = sorted_weights(pushes);
        lemma_heap_weights_canonical(limit, p);
        lemma_top_n(limit, p);
        lemma_sorted_weights_props(p);
        lemma_sorted_weights_props(pushes);
        assert(sw == winsert(swp, x.0));
        let kp = vstd::math::min(limit as int, p.len() as int);
        let d = p.len() - kp;
        if hp.len() < limit {
            assert(kp == p.len() && d == 0);
            assert(weights_of(hp) == swp.skip(0));
            assert(swp.skip(0) =~= swp);
            assert(h == insert_sorted(hp, x));
            lemma_weights_insert(hp, x);
            assert(weights_of(h) == winsert(swp, x.0));
            assert(sw.skip(0) =~= sw);
        } else if limit > 0 && x.0 > hp[0].0 {
            assert(hp.len() == limit && d == p.len() - limit);
            assert(weights_of(hp)[0] == hp[0].0);
            assert(weights_of(hp) == swp.skip(d));
            assert(swp.skip(d)[0] == swp[d]);
            assert(x.0 > swp[d]);
            assert(h == insert_sorted(hp.drop_first(), x));
            lemma_weights_insert(hp.drop_first(), x);
            assert(weights_of(hp.drop_first()) =~= weights_of(hp).drop_first());
            assert(weights_of(hp).drop_first() =~= swp.skip(d + 1)) by {
                assert(swp.skip(d).drop_first() =~= swp.skip(d + 1));
            }
            lemma_winsert_skip_gt(swp, d, x.0);
            assert(weights_of(h) == winsert(swp.skip(d + 1), x.0));
            assert(swp.skip(d + 1) =~= swp.skip((d + 1) as int));
            assert(pushes.len() - vstd::math::min(limit as int, pushes.len() as int) == d + 1);
        } else {
            assert(h == hp);
            if limit == 0 {
                assert(hp.len() == 0);
                assert(weights_of(hp) =~= Seq::<u64>::empty());
                assert(sw.len() == pushes.len());
                assert(sw.skip(pushes.len() as int) =~= Seq::<u64>::empty());
            } else {
                assert(hp.len() == limit);
                assert(x.0 <= hp[0].0);
                assert(weights_of(hp)[0] == hp[0].0);
                assert(weights_of(hp) == swp.skip(d));
                assert(swp.skip(d)[0] == swp[d]);
                assert(x.0 <= swp[d]);
                lemma_winsert_skip_le(swp, d, x.0);
                assert(sw.skip(d + 1) == swp.skip(d));
                assert(pushes.len() - vstd::math::min(limit as int, pushes.len() as int) == d + 1);
            }
        }
    }
}

/// Order independence of the selector: the weights it retains — and
/// the order it drains them in — depend only on the multiset of
/// pushed records, not on the order of the pushes. Labels may differ
/// where distinct records tie in weight.
pub proof fn lemma_selector_order_independent(limit: nat, p1: Seq<Rec>, p2: Seq<Rec>)
    requires
        p1.to_multiset() == p2.to_multiset(),
    ensures
        weights_of(heap_model(limit, p1)) == weights_of(heap_model(limit, p2)),
{
    lemma_heap_weights_canonical(limit, p1);
    lemma_heap_weights_canonical(limit, p2);
    lemma_sorted_weights_permutation(p1, p2);
    vstd::seq_lib::to_multiset_len::<Rec>(p1);
    vstd::seq_lib::to_multiset_len::<Rec>(p2);
    assert(p1.len() == p2.len());
}

/// A min-oriented priority structure that holds at most `limit`
/// records, keeping the largest-weight records pushed so far. When a
/// push arrives at capacity, the held minimum is evicted only if the
/// new record weighs strictly more; on a weight tie the new record is
/// discarded.
#[derive(Debug)]
pub struct LimitedHeap {
    pub limit: usize,
    pub items: Vec<Info>,
}

impl View for LimitedHeap {
    type V = Seq<Rec>;

    open spec fn view(&self) -> Seq<Rec> {
        self.items@.map_values(|it: Info| it@)
    }
}

impl LimitedHeap {
    /// Internal order: records sorted by weight, smallest first, and
    /// never more of them than the capacity allows.
    pub open spec fn wf(&self) -> bool {
        &&& sorted_by_weight(self@)
        &&& self@.len() <= self.limit
    }

    pub fn new(limit: usize) -> (h: LimitedHeap)
        ensures
            h.limit == limit,
            h@ == Seq::<Rec>::empty(),
            h.wf(),
    {
        let h = LimitedHeap { limit, items: Vec::new() };
        proof {
            assert(h@ =~= Seq::<Rec>::empty());
        }
        h
    }

    pub fn len(&self) -> (n: usize)
        ensures
            n == self@.len(),
    {
        self.items.len()
    }

    /// The held record of smallest weight, if any.
    pub fn peek(&self) -> (r: Option<&Info>)
        requires
            self.wf(),
        ensures
            self@.len() == 0 ==> r is None,
            self@.len() > 0 ==> (r matches Some(x) && x@ == self@[0]),
    {
        if self.items.len() == 0 {
            None
        } else {
            Some(&self.items[0])
        }
    }

    /// Removes and returns the held record of smallest weight, if any.
    pub fn pop(&mut self) -> (r: Option<Info>)
        requires
            old(self).wf(),
        ensures
            final(self).wf(),
            final(self).limit == old(self).limit,
            old(self)@.len() == 0 ==> (r is None && final(self)@ == old(self)@),
            old(self)@.len() > 0 ==> (r matches Some(x) && x@ == old(self)@[0] && final(self)@
                == old(self)@.drop_first()),
    {
        if self.items.len() == 0 {
            None
        } else {
            let x = self.items.remove(0);
            proof {
                assert(self@ =~= old(self)@.drop_first());
            }
            Some(x)
        }
    }

    /// Inserts the record at its weight-sorted position, after any
    /// records of equal weight.
    #[verifier::loop_isolation(false)]
    fn insert_in_order(&mut self, info: Info)
        requires
            sorted_by_weight(old(self)@),
            old(self)@.len() < usize::MAX,
        ensures
            final(self).limit == old(self).limit,
            final(self)@ == insert_sorted(old(self)@, info@),
    {
        let mut i: usize = 0;
        while i < self.items.len() && self.items[i].0 <= info.0
            invariant
                0 <= i <= self.items.len(),
                forall|k: int| 0 <= k < i ==> (#[trigger] self@[k]).0 <= info.0,
            decreases self.items.len() - i,
        {
            proof {
                assert(self@[i as int].0 == self.items@[i as int].0);
            }
            i += 1;
        }
        proof {
            lemma_insert_sorted_split(self@, info@, i as int);
        }
        self.items.insert(i, info);
        proof {
            assert(self@ =~= old(self)@.subrange(0, i as int) + seq![info@] + old(self)@.subrange(
                i as int,
                old(self)@.len() as int,
            ));
        }
    }

    /// Pushes a record: inserted below capacity; at capacity it
    /// replaces the held minimum only when strictly heavier, and is
    /// otherwise discarded.
    pub fn push(&mut self, info: Info)
        requires
            old(self).wf(),
        ensures
            final(self).wf(),
            final(self).limit == old(self).limit,
            final(self)@ == push_model(old(self)@, old(self).limit as nat, info@),
    {
        let len = self.items.len();
        if len > 0 && len == self.limit {
            let evict = self.items[0].0 < info.0;
            if evict {
                let _ = self.items.remove(0);
                proof {
                    assert(self@ =~= old(self)@.drop_first());
                    lemma_insert_sorted_props(self@, info@);
                }
                self.insert_in_order(info);
            }
        } else if len < self.limit {
            proof {
                lemma_insert_sorted_props(self@, info@);
            }
            self.insert_in_order(info);
        }
    }

    /// Consumes the selector, returning its records in non-increasing
    /// weight order (heaviest first).
    #[verifier::loop_isolation(false)]
    pub fn drain_sorted(self) -> (r: Vec<Info>)
        requires
            self.wf(),
        ensures
            r@.len() == self@.len(),
            forall|i: int| 0 <= i < r@.len() ==> (#[trigger] r@[i])@ == self@[self@.len() - 1 - i],
            forall|i: int, j: int| 0 <= i <= j < r@.len() ==> (#[trigger] r@[i]).0
                >= (#[trigger] r@[j]).0,
    {
        let mut items = self.items;
        let ghost orig = items@;
        let mut out: Vec<Info> = Vec::new();
        proof {
            assert(items@ =~= orig.subrange(0, items@.len() as int));
        }
        loop
            invariant
                out@.len() + items@.len() == orig.len(),
                items@ == orig.subrange(0, items@.len() as int),
                forall|i: int| 0 <= i < out@.len() ==> #[trigger] out@[i] == orig[orig.len() - 1
                    - i],
            decreases items@.len(),
        {
            let x = items.pop();
            match x {
                Some(v) => {
                    out.push(v);
                    proof {
                        assert(items@ =~= orig.subrange(0, items@.len() as int));
                    }
                }
                None => {
                    break ;
                }
            }
        }
        proof {
            assert(orig == self.items@);
            assert forall|i: int| 0 <= i < out@.len() implies (#[trigger] out@[i])@ == self@[
                self@.len() - 1 - i] by {
                assert(out@[i] == orig[orig.len() - 1 - i]);
            }
            assert forall|i: int, j: int| 0 <= i <= j < out@.len() implies (#[trigger] out@[i]).0
                >= (#[trigger] out@[j]).0 by {
                assert(out@[i]@ == self@[self@.len() - 1 - i]);
                assert(out@[j]@ == self@[self@.len() - 1 - j]);
                assert(self@[self@.len() - 1 - j].0 <= self@[self@.len() - 1 - i].0);
            }
        }
        out
    }
}

} // verus!
