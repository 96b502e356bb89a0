//! Mathematical model of the selection algorithm: the ranking order, the
//! single-pass admission process, and the laws that hold of its result.

use vstd::prelude::*;

verus! {

/// Mathematical image of one candidate transaction.
pub struct TxView {
    /// Identifier of the candidate.
    pub txid: Seq<char>,
    /// Ranking score; higher is visited earlier.
    pub fee: int,
    /// Resource cost counted against the capacity.
    pub weight: int,
    /// Ids that must already be chosen before this candidate is eligible.
    pub parents: Seq<Seq<char>>,
}

/// The ids of a sequence of candidates, in the same order.
pub open spec fn ids_of(s: Seq<TxView>) -> Seq<Seq<char>> {
    Seq::new(s.len(), |i: int| s[i].txid)
}

/// Places `tx` behind every candidate whose fee is at least `tx.fee`:
/// one step of a stable insertion sort by descending fee.
pub open spec fn insert_ranked(s: Seq<TxView>, tx: TxView) -> Seq<TxView>
    decreases s.len(),
{
    if s.len() == 0 {
        seq![tx]
    } else if s[0].fee >= tx.fee {
        seq![s[0]] + insert_ranked(s.drop_first(), tx)
    } else {
        seq![tx] + s
    }
}

/// The candidates reordered by strictly descending fee; candidates with
/// equal fees keep their relative input order (stable sort).
pub open spec fn rank_by_fee(s: Seq<TxView>) -> Seq<TxView>
    decreases s.len(),
{
    if s.len() == 0 {
        Seq::empty()
    } else {
        insert_ranked(rank_by_fee(s.drop_last()), s.last())
    }
}

/// Every id of `ids` occurs in `chosen`.
pub open spec fn all_contained(ids: Seq<Seq<char>>, chosen: Seq<Seq<char>>) -> bool {
    forall|i: int| 0 <= i < ids.len() ==> chosen.contains(#[trigger] ids[i])
}

/// A candidate may be admitted when its id is not yet chosen and all of
/// its parents are.
pub open spec fn can_admit(tx: TxView, chosen: Seq<Seq<char>>) -> bool {
    &&& !chosen.contains(tx.txid)
    &&& all_contained(tx.parents, chosen)
}

/// One forward pass over `pending`, admitting eligible candidates onto
/// `chosen`; `total` is the weight of `chosen` so far. The pass ends
/// immediately after the admission that pushes `total` past `capacity`
/// (that candidate stays admitted).
pub open spec fn admit_from(
    pending: Seq<TxView>,
    chosen: Seq<TxView>,
    total: int,
    capacity: int,
) -> Seq<TxView>
    decreases pending.len(),
{
    if pending.len() == 0 {
        chosen
    } else {
        let tx = pending[0];
        if can_admit(tx, ids_of(chosen)) {
            if total + tx.weight > capacity {
                chosen.push(tx)
            } else {
                admit_from(pending.drop_first(), chosen.push(tx), total + tx.weight, capacity)
            }
        } else {
            admit_from(pending.drop_first(), chosen, total, capacity)
        }
    }
}

/// The candidates admitted by the whole algorithm, in admission order.
pub open spec fn admitted(txs: Seq<TxView>, capacity: int) -> Seq<TxView> {
    admit_from(rank_by_fee(txs), Seq::empty(), 0, capacity)
}

/// The algorithm's result: the ids of the admitted candidates, in
/// admission order.
pub open spec fn spec_select(txs: Seq<TxView>, capacity: int) -> Seq<Seq<char>> {
    ids_of(admitted(txs, capacity))
}

/// `insert_ranked` places the new candidate exactly before the first
/// entry whose fee is strictly smaller than its own.
pub proof fn lemma_insert_ranked_at(s: Seq<TxView>, tx: TxView, j: int)
    requires
        0 <= j <= s.len(),
        forall|m: int| 0 <= m < j ==> s[m].fee >= tx.fee,
        j < s.len() ==> s[j].fee < tx.fee,
    ensures
        insert_ranked(s, tx) == s.take(j) + seq![tx] + s.skip(j),
    decreases j,
{
    if j == 0 {
        assert(insert_ranked(s, tx) =~= s.take(0) + seq![tx] + s.skip(0));
    } else {
        lemma_insert_ranked_at(s.drop_first(), tx, j - 1);
        assert(insert_ranked(s, tx) =~= s.take(j) + seq![tx] + s.skip(j));
    }
}

/// Total weight of a sequence of candidates.
pub open spec fn sum_weights(s: Seq<TxView>) -> int
    decreases s.len(),
{
    if s.len() == 0 {
        0
    } else {
        sum_weights(s.drop_last()) + s.last().weight
    }
}

/// No two entries of `s` share an id.
pub open spec fn distinct_ids(s: Seq<TxView>) -> bool {
    forall|i: int, j: int| 0 <= i < j < s.len() ==> s[i].txid != s[j].txid
}

proof fn lemma_admit_from_distinct(
    pending: Seq<TxView>,
    chosen: Seq<TxView>,
    total: int,
    capacity: int,
)
    requires
        distinct_ids(chosen),
    ensures
        distinct_ids(admit_from(pending, chosen, total, capacity)),
    decreases pending.len(),
{
    if pending.len() > 0 {
        let tx = pending[0];
        if can_admit(tx, ids_of(chosen)) {
            let pushed = chosen.push(tx);
            assert forall|i: int, j: int| 0 <= i < j < pushed.len() implies pushed[i].txid
                != pushed[j].txid by {
                if j == chosen.len() && pushed[i].txid == tx.txid {
                    assert(ids_of(chosen)[i] == tx.txid);
                    assert(ids_of(chosen).contains(tx.txid));
                }
            }
            if total + tx.weight <= capacity {
                lemma_admit_from_distinct(
                    pending.drop_first(),
                    pushed,
                    total + tx.weight,
                    capacity,
                );
            }
        } else {
            lemma_admit_from_distinct(pending.drop_first(), chosen, total, capacity);
        }
    }
}

/// Law: the result contains no id more than once.
pub proof fn lemma_no_duplicates(txs: Seq<TxView>, capacity: int)
    ensures
        spec_select(txs, capacity).no_duplicates(),
{
    lemma_admit_from_distinct(rank_by_fee(txs), Seq::empty(), 0, capacity);
    let a = admitted(txs, capacity);
    let r = spec_select(txs, capacity);
    assert forall|i: int, j: int|
        0 <= i < r.len() && 0 <= j < r.len() && i != j implies r[i] != r[j] by {
        assert(r[i] == a[i].txid);
        assert(r[j] == a[j].txid);
    }
}

/// Every entry's parents all occur among the ids of the entries before it.
pub open spec fn parents_precede(s: Seq<TxView>) -> bool {
    forall|i: int| 0 <= i < s.len() ==> all_contained(#[trigger] s[i].parents, ids_of(s.take(i)))
}

proof fn lemma_admit_from_parents(
    pending: Seq<TxView>,
    chosen: Seq<TxView>,
    total: int,
    capacity: int,
)
    requires
        parents_precede(chosen),
    ensures
        parents_precede(admit_from(pending, chosen, total, capacity)),
    decreases pending.len(),
{
    if pending.len() > 0 {
        let tx = pending[0];
        if can_admit(tx, ids_of(chosen)) {
            let pushed = chosen.push(tx);
            assert forall|i: int| 0 <= i < pushed.len() implies all_contained(
                #[trigger] pushed[i].parents,
                ids_of(pushed.take(i)),
            ) by {
                assert(pushed.take(i) =~= chosen.take(i));
                if i < chosen.len() {
                    assert(pushed[i] == chosen[i]);
                } else {
                    assert(chosen.take(i) =~= chosen);
                }
            }
            if total + tx.weight <= capacity {
                lemma_admit_from_parents(pending.drop_first(), pushed, total + tx.weight, capacity);
            }
        } else {
            lemma_admit_from_parents(pending.drop_first(), chosen, total, capacity);
        }
    }
}

/// Law: for every admitted candidate, each of its parent ids has itself
/// been admitted, at an earlier position of the result.
pub proof fn lemma_dependency_closure(txs: Seq<TxView>, capacity: int)
    ensures
        parents_precede(admitted(txs, capacity)),
        forall|i: int, j: int|
            0 <= i < admitted(txs, capacity).len() && 0 <= j < admitted(
                txs,
                capacity,
            )[i].parents.len() ==> spec_select(txs, capacity).take(i).contains(
                #[trigger] admitted(txs, capacity)[i].parents[j],
            ),
{
    lemma_admit_from_parents(rank_by_fee(txs), Seq::empty(), 0, capacity);
    let a = admitted(txs, capacity);
    assert forall|i: int, j: int|
        0 <= i < admitted(txs, capacity).len() && 0 <= j < admitted(
            txs,
            capacity,
        )[i].parents.len() implies spec_select(txs, capacity).take(i).contains(
        #[trigger] admitted(txs, capacity)[i].parents[j],
    ) by {
        assert(all_contained(a[i].parents, ids_of(a.take(i))));
        assert(ids_of(a.take(i)).contains(a[i].parents[j]));
        assert(ids_of(a.take(i)) =~= spec_select(txs, capacity).take(i));
    }
}

proof fn lemma_cons_contains(x: TxView, s: Seq<TxView>, y: TxView)
    ensures
        (seq![x] + s).contains(y) <==> (y == x || s.contains(y)),
{
    let c = seq![x] + s;
    if c.contains(y) {
        let m = choose|m: int| 0 <= m < c.len() && c[m] == y;
        if m > 0 {
            assert(s[m - 1] == y);
        }
    }
    if y == x {
        assert(c[0] == y);
    }
    if s.contains(y) {
        let m = choose|m: int| 0 <= m < s.len() && s[m] == y;
        assert(c[m + 1] == y);
    }
}

proof fn lemma_push_contains(s: Seq<TxView>, x: TxView, y: TxView)
    ensures
        s.push(x).contains(y) <==> (y == x || s.contains(y)),
{
    let c = s.push(x);
    if c.contains(y) {
        let m = choose|m: int| 0 <= m < c.len() && c[m] == y;
        if m < s.len() {
            assert(s[m] == y);
        }
    }
    if y == x {
        assert(c[s.len() as int] == y);
    }
    if s.contains(y) {
        let m = choose|m: int| 0 <= m < s.len() && s[m] == y;
        assert(c[m] == y);
    }
}

proof fn lemma_insert_ranked_contains(s: Seq<TxView>, tx: TxView, y: TxView)
    ensures
        insert_ranked(s, tx).contains(y) <==> (y == tx || s.contains(y)),
    decreases s.len(),
{
    if s.len() == 0 {
        lemma_cons_contains(tx, s, y);
    } else if s[0].fee >= tx.fee {
        lemma_insert_ranked_contains(s.drop_first(), tx, y);
        lemma_cons_contains(s[0], insert_ranked(s.drop_first(), tx), y);
        assert(s =~= seq![s[0]] + s.drop_first());
        lemma_cons_contains(s[0], s.drop_first(), y);
    } else {
        lemma_cons_contains(tx, s, y);
    }
}

proof fn lemma_rank_contains(s: Seq<TxView>, y: TxView)
    ensures
        rank_by_fee(s).contains(y) <==> s.contains(y),
    decreases s.len(),
{
    if s.len() > 0 {
        lemma_rank_contains(s.drop_last(), y);
        lemma_insert_ranked_contains(rank_by_fee(s.drop_last()), s.last(), y);
        assert(s =~= s.drop_last().push(s.last()));
        lemma_push_contains(s.drop_last(), s.last(), y);
    }
}

proof fn lemma_admit_from_src(pending: Seq<TxView>, chosen: Seq<TxView>, total: int, capacity: int)
    ensures
        forall|m: int|
            0 <= m < admit_from(pending, chosen, total, capacity).len() ==> chosen.contains(
                #[trigger] admit_from(pending, chosen, total, capacity)[m],
            ) || pending.contains(admit_from(pending, chosen, total, capacity)[m]),
    decreases pending.len(),
{
    let a = admit_from(pending, chosen, total, capacity);
    if pending.len() == 0 {
        assert forall|m: int| 0 <= m < a.len() implies chosen.contains(#[trigger] a[m])
            || pending.contains(a[m]) by {
            assert(chosen[m] == a[m]);
        }
    } else {
        let tx = pending[0];
        assert(pending.contains(tx)) by {
            assert(pending[0] == tx);
        }
        if can_admit(tx, ids_of(chosen)) {
            let pushed = chosen.push(tx);
            if total + tx.weight > capacity {
                assert forall|m: int| 0 <= m < a.len() implies chosen.contains(#[trigger] a[m])
                    || pending.contains(a[m]) by {
                    lemma_push_contains(chosen, tx, a[m]);
                    assert(pushed[m] == a[m]);
                    assert(pushed.contains(a[m]));
                }
            } else {
                lemma_admit_from_src(pending.drop_first(), pushed, total + tx.weight, capacity);
                let rest = admit_from(pending.drop_first(), pushed, total + tx.weight, capacity);
                assert(a == rest);
                assert forall|m: int| 0 <= m < a.len() implies chosen.contains(#[trigger] a[m])
                    || pending.contains(a[m]) by {
                    assert(rest[m] == a[m]);
                    assert(pushed.contains(rest[m]) || pending.drop_first().contains(rest[m]));
                    lemma_push_contains(chosen, tx, a[m]);
                    if pending.drop_first().contains(a[m]) {
                        let q = choose|q: int|
                            0 <= q < pending.drop_first().len() && pending.drop_first()[q] == a[m];
                        assert(pending[q + 1] == a[m]);
                    }
                }
            }
        } else {
            lemma_admit_from_src(pending.drop_first(), chosen, total, capacity);
            let rest = admit_from(pending.drop_first(), chosen, total, capacity);
            assert(a == rest);
            assert forall|m: int| 0 <= m < a.len() implies chosen.contains(#[trigger] a[m])
                || pending.contains(a[m]) by {
                assert(rest[m] == a[m]);
                assert(chosen.contains(rest[m]) || pending.drop_first().contains(rest[m]));
                if pending.drop_first().contains(a[m]) {
                    let q = choose|q: int|
                        0 <= q < pending.drop_first().len() && pending.drop_first()[q] == a[m];
                    assert(pending[q + 1] == a[m]);
                }
            }
        }
    }
}

/// Law: every admitted candidate comes from the input, and every
/// returned id is an id of some input candidate.
pub proof fn lemma_subset_of_input(txs: Seq<TxView>, capacity: int)
    ensures
        forall|m: int|
            0 <= m < admitted(txs, capacity).len() ==> txs.contains(
                #[trigger] admitted(txs, capacity)[m],
            ),
        forall|m: int|
            0 <= m < spec_select(txs, capacity).len() ==> ids_of(txs).contains(
                #[trigger] spec_select(txs, capacity)[m],
            ),
{
    lemma_admit_from_src(rank_by_fee(txs), Seq::empty(), 0, capacity);
    let a = admitted(txs, capacity);
    assert forall|m: int| 0 <= m < a.len() implies txs.contains(
        #[trigger] admitted(txs, capacity)[m],
    ) by {
        lemma_rank_contains(txs, a[m]);
    }
    assert forall|m: int| 0 <= m < spec_select(txs, capacity).len() implies ids_of(txs).contains(
        #[trigger] spec_select(txs, capacity)[m],
    ) by {
        assert(txs.contains(a[m]));
        let q = choose|q: int| 0 <= q < txs.len() && txs[q] == a[m];
        assert(ids_of(txs)[q] == a[m].txid);
        assert(spec_select(txs, capacity)[m] == a[m].txid);
    }
}

proof fn lemma_admit_from_weights(
    pending: Seq<TxView>,
    chosen: Seq<TxView>,
    total: int,
    capacity: int,
)
    requires
        total == sum_weights(chosen),
        total <= capacity,
        forall|k: int| 0 <= k < chosen.len() ==> sum_weights(#[trigger] chosen.take(k)) <= capacity,
    ensures
        forall|k: int|
            0 <= k < admit_from(pending, chosen, total, capacity).len() ==> sum_weights(
                #[trigger] admit_from(pending, chosen, total, capacity).take(k),
            ) <= capacity,
    decreases pending.len(),
{
    let a = admit_from(pending, chosen, total, capacity);
    if pending.len() == 0 {
        assert forall|k: int| 0 <= k < a.len() implies sum_weights(#[trigger] a.take(k))
            <= capacity by {
            assert(a.take(k) == chosen.take(k));
        }
    } else {
        let tx = pending[0];
        if can_admit(tx, ids_of(chosen)) {
            let pushed = chosen.push(tx);
            assert forall|k: int| 0 <= k < pushed.len() implies sum_weights(#[trigger] pushed.take(k))
                <= capacity by {
                if k < chosen.len() {
                    assert(pushed.take(k) =~= chosen.take(k));
                } else {
                    assert(pushed.take(k) =~= chosen);
                }
            }
            if total + tx.weight > capacity {
                assert(a == pushed);
            } else {
                assert(pushed.drop_last() =~= chosen);
                assert(sum_weights(pushed) == total + tx.weight);
                lemma_admit_from_weights(pending.drop_first(), pushed, total + tx.weight, capacity);
                let rest = admit_from(pending.drop_first(), pushed, total + tx.weight, capacity);
                assert(a == rest);
                assert forall|k: int| 0 <= k < a.len() implies sum_weights(#[trigger] a.take(k))
                    <= capacity by {
                    assert(sum_weights(rest.take(k)) <= capacity);
                }
            }
        } else {
            lemma_admit_from_weights(pending.drop_first(), chosen, total, capacity);
            let rest = admit_from(pending.drop_first(), chosen, total, capacity);
            assert(a == rest);
            assert forall|k: int| 0 <= k < a.len() implies sum_weights(#[trigger] a.take(k))
                <= capacity by {
                assert(sum_weights(rest.take(k)) <= capacity);
            }
        }
    }
}

/// Law: before the final admission the cumulative weight never exceeds
/// the capacity, so the result overshoots by at most the weight of its
/// last entry.
pub proof fn lemma_capacity_bound(txs: Seq<TxView>, capacity: int)
    requires
        capacity >= 0,
    ensures
        forall|k: int|
            0 <= k < admitted(txs, capacity).len() ==> sum_weights(
                #[trigger] admitted(txs, capacity).take(k),
            ) <= capacity,
        admitted(txs, capacity).len() > 0 ==> sum_weights(admitted(txs, capacity)) <= capacity
            + admitted(txs, capacity).last().weight,
{
    let a = admitted(txs, capacity);
    lemma_admit_from_weights(rank_by_fee(txs), Seq::empty(), 0, capacity);
    if a.len() > 0 {
        assert(a.take(a.len() - 1) =~= a.drop_last());
        assert(sum_weights(a) == sum_weights(a.drop_last()) + a.last().weight);
        assert(sum_weights(a.take(a.len() - 1)) <= capacity);
    }
}

/// Law: the result is a function of the input sequence and the capacity
/// alone; two runs over the same candidates with the same capacity
/// return the same id sequence.
pub proof fn lemma_deterministic(
    txs: Seq<TxView>,
    capacity: int,
    r1: Seq<Seq<char>>,
    r2: Seq<Seq<char>>,
)
    requires
        r1 == spec_select(txs, capacity),
        r2 == spec_select(txs, capacity),
    ensures
        r1 == r2,
{
}

/// Fees never increase along `s`.
pub open spec fn sorted_by_fee_desc(s: Seq<TxView>) -> bool {
    forall|i: int, j: int| 0 <= i < j < s.len() ==> s[i].fee >= s[j].fee
}

proof fn lemma_insert_ranked_sorted(s: Seq<TxView>, tx: TxView)
    requires
        sorted_by_fee_desc(s),
    ensures
        sorted_by_fee_desc(insert_ranked(s, tx)),
    decreases s.len(),
{
    if s.len() == 0 {
    } else if s[0].fee >= tx.fee {
        assert(sorted_by_fee_desc(s.drop_first()));
        lemma_insert_ranked_sorted(s.drop_first(), tx);
        let rest = insert_ranked(s.drop_first(), tx);
        let c = seq![s[0]] + rest;
        assert forall|i: int, j: int| 0 <= i < j < c.len() implies c[i].fee >= c[j].fee by {
            if i == 0 {
                assert(rest.contains(rest[j - 1])) by {
                    assert(rest[j - 1] == rest[j - 1]);
                }
                lemma_insert_ranked_contains(s.drop_first(), tx, rest[j - 1]);
                if rest[j - 1] != tx {
                    let q = choose|q: int|
                        0 <= q < s.drop_first().len() && s.drop_first()[q] == rest[j - 1];
                    assert(s[q + 1] == rest[j - 1]);
                }
            } else {
                assert(c[i] == rest[i - 1] && c[j] == rest[j - 1]);
            }
        }
    } else {
        let c = seq![tx] + s;
        assert forall|i: int, j: int| 0 <= i < j < c.len() implies c[i].fee >= c[j].fee by {
            if i == 0 {
                if j > 1 {
                    assert(s[0].fee >= s[j - 1].fee);
                }
            }
        }
    }
}

/// Law: the ranking the selector walks is ordered by descending fee.
pub proof fn lemma_ranking_sorted(txs: Seq<TxView>)
    ensures
        sorted_by_fee_desc(rank_by_fee(txs)),
    decreases txs.len(),
{
    if txs.len() > 0 {
        lemma_ranking_sorted(txs.drop_last());
        lemma_insert_ranked_sorted(rank_by_fee(txs.drop_last()), txs.last());
    }
}

/// The candidates of `s` whose fee is exactly `f`, in their order in `s`.
pub open spec fn with_fee(s: Seq<TxView>, f: int) -> Seq<TxView>
    decreases s.len(),
{
    if s.len() == 0 {
        Seq::empty()
    } else if s.last().fee == f {
        with_fee(s.drop_last(), f).push(s.last())
    } else {
        with_fee(s.drop_last(), f)
    }
}

proof fn lemma_with_fee_add(a: Seq<TxView>, b: Seq<TxView>, f: int)
    ensures
        with_fee(a + b, f) == with_fee(a, f) + with_fee(b, f),
    decreases b.len(),
{
    if b.len() == 0 {
        assert(a + b =~= a);
        assert(with_fee(a, f) + with_fee(b, f) =~= with_fee(a, f));
    } else {
        lemma_with_fee_add(a, b.drop_last(), f);
        assert((a + b).drop_last() =~= a + b.drop_last());
        assert((a + b).last() == b.last());
        if b.last().fee == f {
            assert((with_fee(a, f) + with_fee(b.drop_last(), f)).push(b.last()) =~= with_fee(a, f)
                + with_fee(b.drop_last(), f).push(b.last()));
        }
    }
}

proof fn lemma_with_fee_none(s: Seq<TxView>, f: int)
    requires
        forall|i: int| 0 <= i < s.len() ==> s[i].fee != f,
    ensures
        with_fee(s, f) == Seq::<TxView>::empty(),
    decreases s.len(),
{
    if s.len() > 0 {
        assert(forall|i: int| 0 <= i < s.drop_last().len() ==> s.drop_last()[i].fee != f);
        lemma_with_fee_none(s.drop_last(), f);
        assert(s.last().fee != f);
    }
}

proof fn lemma_insert_ranked_with_fee(s: Seq<TxView>, tx: TxView, f: int)
    requires
        sorted_by_fee_desc(s),
    ensures
        with_fee(insert_ranked(s, tx), f) == (if tx.fee == f {
            with_fee(s, f).push(tx)
        } else {
            with_fee(s, f)
        }),
    decreases s.len(),
{
    if s.len() == 0 {
        assert(seq![tx].drop_last() =~= Seq::<TxView>::empty());
        assert(with_fee(Seq::<TxView>::empty(), f) == Seq::<TxView>::empty());
        assert(seq![tx].last() == tx);
        assert(s =~= Seq::<TxView>::empty());
    } else if s[0].fee >= tx.fee {
        assert(sorted_by_fee_desc(s.drop_first()));
        lemma_insert_ranked_with_fee(s.drop_first(), tx, f);
        let rest = insert_ranked(s.drop_first(), tx);
        lemma_with_fee_add(seq![s[0]], rest, f);
        lemma_with_fee_add(seq![s[0]], s.drop_first(), f);
        assert(s =~= seq![s[0]] + s.drop_first());
        if tx.fee == f {
            assert(with_fee(seq![s[0]], f) + with_fee(s.drop_first(), f).push(tx) =~= (with_fee(
                seq![s[0]],
                f,
            ) + with_fee(s.drop_first(), f)).push(tx));
        }
    } else {
        lemma_with_fee_add(seq![tx], s, f);
        assert(seq![tx].drop_last() =~= Seq::<TxView>::empty());
        assert(with_fee(Seq::<TxView>::empty(), f) == Seq::<TxView>::empty());
        assert(seq![tx].last() == tx);
        if tx.fee == f {
            assert(forall|i: int| 0 <= i < s.len() ==> s[i].fee != f) by {
                assert(forall|i: int| 0 < i < s.len() ==> s[0].fee >= #[trigger] s[i].fee);
            }
            lemma_with_fee_none(s, f);
            assert(with_fee(seq![tx], f) + with_fee(s, f) =~= with_fee(s, f).push(tx));
        } else {
            assert(with_fee(seq![tx], f) + with_fee(s, f) =~= with_fee(s, f));
        }
    }
}

/// Law: the ranking's tie-break is stable. For every fee value, the
/// candidates carrying that fee appear in the ranking exactly as they
/// appear in the input, in the same relative order; together with
/// `lemma_ranking_sorted` this pins the ranking down completely.
pub proof fn lemma_ranking_stable(txs: Seq<TxView>, f: int)
    ensures
        with_fee(rank_by_fee(txs), f) == with_fee(txs, f),
    decreases txs.len(),
{
    if txs.len() > 0 {
        lemma_ranking_stable(txs.drop_last(), f);
        lemma_ranking_sorted(txs.drop_last());
        lemma_insert_ranked_with_fee(rank_by_fee(txs.drop_last()), txs.last(), f);
    }
}

proof fn lemma_insert_ranked_multiset(s: Seq<TxView>, tx: TxView)
    ensures
        insert_ranked(s, tx).to_multiset() == s.to_multiset().insert(tx),
    decreases s.len(),
{
    broadcast use vstd::seq_lib::group_to_multiset_ensures;

    if s.len() == 0 {
        assert(s =~= Seq::<TxView>::empty());
        assert(seq![tx] =~= Seq::<TxView>::empty().push(tx));
    } else if s[0].fee >= tx.fee {
        lemma_insert_ranked_multiset(s.drop_first(), tx);
        let rest = insert_ranked(s.drop_first(), tx);
        vstd::seq_lib::lemma_multiset_commutative(seq![s[0]], rest);
        vstd::seq_lib::lemma_multiset_commutative(seq![s[0]], s.drop_first());
        assert(s =~= seq![s[0]] + s.drop_first());
        assert(seq![s[0]].to_multiset().add(s.drop_first().to_multiset().insert(tx)) =~= seq![
            s[0],
        ].to_multiset().add(s.drop_first().to_multiset()).insert(tx));
    } else {
        vstd::seq_lib::lemma_multiset_commutative(seq![tx], s);
        assert(seq![tx] =~= Seq::<TxView>::empty().push(tx));
        assert(Seq::<TxView>::empty().push(tx).to_multiset().add(s.to_multiset())
            =~= s.to_multiset().insert(tx));
    }
}

/// Law: the ranking is a rearrangement of the input candidates; nothing
/// is lost, added or repeated by the sort.
pub proof fn lemma_ranking_permutes(txs: Seq<TxView>)
    ensures
        rank_by_fee(txs).to_multiset() == txs.to_multiset(),
    decreases txs.len(),
{
    broadcast use vstd::seq_lib::group_to_multiset_ensures;

    if txs.len() > 0 {
        lemma_ranking_permutes(txs.drop_last());
        lemma_insert_ranked_multiset(rank_by_fee(txs.drop_last()), txs.last());
        assert(txs =~= txs.drop_last().push(txs.last()));
    }
}

} // verus!
