//! Executable candidate type and the verified selection algorithm.

use crate::model::{
    admit_from, admitted, can_admit, ids_of, insert_ranked, lemma_insert_ranked_at, rank_by_fee,
    spec_select, sum_weights, TxView,
};
use vstd::prelude::*;

verus! {

/// One candidate transaction: an id, a fee used for ranking, a weight
/// counted against the capacity, and the ids of its parents.
pub struct MempoolTransaction {
    pub txid: String,
    pub fee: i32,
    pub weight: i32,
    pub parents: Vec<String>,
}

/// The character sequences of a sequence of strings, in order.
pub open spec fn str_views(v: Seq<String>) -> Seq<Seq<char>> {
    Seq::new(v.len(), |i: int| v[i]@)
}

/// The mathematical images of a sequence of candidates, in order.
pub open spec fn tx_views(v: Seq<MempoolTransaction>) -> Seq<TxView> {
    Seq::new(v.len(), |i: int| v[i]@)
}

impl View for MempoolTransaction {
    type V = TxView;

    open spec fn view(&self) -> TxView {
        TxView {
            txid: self.txid@,
            fee: self.fee as int,
            weight: self.weight as int,
            parents: str_views(self.parents@),
        }
    }
}

impl MempoolTransaction {
    /// Builds a candidate from its four attributes.
    pub fn new(txid: String, fee: i32, weight: i32, parents: Vec<String>) -> (r: Self)
        ensures
            r.txid == txid,
            r.fee == fee,
            r.weight == weight,
            r.parents == parents,
    {
        MempoolTransaction { txid, fee, weight, parents }
    }
}

/// Linear scan: is `id` among the chosen ids?
fn contains_id(chosen: &Vec<String>, id: &String) -> (r: bool)
    ensures
        r == str_views(chosen@).contains(id@),
{
    let mut k: usize = 0;
    while k < chosen.len()
        invariant
            k <= chosen.len(),
            forall|m: int| 0 <= m < k ==> str_views(chosen@)[m] != id@,
        decreases chosen.len() - k,
    {
        if chosen[k] == *id {
            assert(str_views(chosen@)[k as int] == id@);
            return true;
        }
        k += 1;
    }
    assert(!str_views(chosen@).contains(id@)) by {
        if str_views(chosen@).contains(id@) {
            let m = choose|m: int|
                0 <= m < str_views(chosen@).len() && str_views(chosen@)[m] == id@;
            assert(str_views(chosen@)[m] != id@);
        }
    }
    false
}

/// Linear scan: is every id of `parents` among the chosen ids?
fn all_parents_chosen(chosen: &Vec<String>, parents: &Vec<String>) -> (r: bool)
    ensures
        r == crate::model::all_contained(str_views(parents@), str_views(chosen@)),
{
    let mut k: usize = 0;
    while k < parents.len()
        invariant
            k <= parents.len(),
            forall|m: int| 0 <= m < k ==> str_views(chosen@).contains(#[trigger] str_views(
                parents@,
            )[m]),
        decreases parents.len() - k,
    {
        if !contains_id(chosen, &parents[k]) {
            assert(!str_views(chosen@).contains(str_views(parents@)[k as int]));
            return false;
        }
        k += 1;
    }
    true
}

/// First position in the ranking whose fee is strictly below `fee`.
fn rank_position(ranked: &Vec<MempoolTransaction>, fee: i32) -> (j: usize)
    ensures
        j <= ranked.len(),
        forall|m: int| 0 <= m < j ==> tx_views(ranked@)[m].fee >= fee,
        j < ranked.len() ==> tx_views(ranked@)[j as int].fee < fee,
{
    let mut j: usize = 0;
    while j < ranked.len()
        invariant
            j <= ranked.len(),
            forall|m: int| 0 <= m < j ==> tx_views(ranked@)[m].fee >= fee,
        decreases ranked.len() - j,
    {
        if ranked[j].fee < fee {
            return j;
        }
        j += 1;
    }
    j
}

/// Inserts `tx` into a fee-descending ranking, behind every entry whose
/// fee is at least its own.
fn insert_by_fee(ranked: &mut Vec<MempoolTransaction>, tx: MempoolTransaction)
    ensures
        tx_views(final(ranked)@) == insert_ranked(tx_views(old(ranked)@), tx@),
{
    let j = rank_position(ranked, tx.fee);
    proof {
        lemma_insert_ranked_at(tx_views(ranked@), tx@, j as int);
    }
    ranked.insert(j, tx);
    proof {
        assert(tx_views(ranked@) =~= insert_ranked(tx_views(old(ranked)@), tx@));
    }
}

/// Stable sort of the candidates by strictly descending fee; equal fees
/// keep their input order.
fn rank_transactions(txs: Vec<MempoolTransaction>) -> (r: Vec<MempoolTransaction>)
    ensures
        tx_views(r@) == rank_by_fee(tx_views(txs@)),
{
    let ghost orig = tx_views(txs@);
    let mut rest = txs;
    let mut ranked: Vec<MempoolTransaction> = Vec::new();
    proof {
        assert(tx_views(rest@) =~= orig.skip(0));
        assert(tx_views(ranked@) =~= rank_by_fee(orig.take(0)));
    }
    while rest.len() > 0
        invariant
            rest.len() <= orig.len(),
            tx_views(rest@) == orig.skip(orig.len() - rest.len()),
            tx_views(ranked@) == rank_by_fee(orig.take(orig.len() - rest.len())),
        decreases rest.len(),
    {
        let ghost k: int = orig.len() - rest.len();
        let ghost prev = rest@;
        let tx = rest.remove(0);
        proof {
            assert(tx_views(prev) == orig.skip(k));
            assert(tx@ == tx_views(prev)[0]);
            assert(orig.skip(k)[0] == orig[k]);
            assert forall|m: int| 0 <= m < rest@.len() implies #[trigger] tx_views(rest@)[m]
                == orig.skip(k + 1)[m] by {
                assert(rest@[m] == prev[m + 1]);
                assert(tx_views(rest@)[m] == rest@[m]@);
                assert(tx_views(prev)[m + 1] == prev[m + 1]@);
                assert(tx_views(prev)[m + 1] == orig.skip(k)[m + 1]);
                assert(orig.skip(k)[m + 1] == orig[k + 1 + m]);
                assert(orig.skip(k + 1)[m] == orig[k + 1 + m]);
            }
            assert(tx_views(rest@) =~= orig.skip(k + 1));
        }
        insert_by_fee(&mut ranked, tx);
        proof {
            assert(orig.take(k + 1).drop_last() =~= orig.take(k));
            assert(orig.take(k + 1).last() == orig[k]);
            assert(tx_views(ranked@) == rank_by_fee(orig.take(k + 1)));
        }
    }
    proof {
        assert(orig.take(orig.len() as int) =~= orig);
    }
    ranked
}

/// Selects transaction ids for a batch of the given capacity.
///
/// The candidates are ranked by strictly descending fee (stable: equal
/// fees keep their input order) and visited once in that order; a
/// candidate is admitted when its id is not yet selected and every parent
/// id is, and the pass stops right after the admission that pushes the
/// cumulative weight past `capacity`. The result is the admitted ids in
/// admission order, exactly `spec_select` of the input.
pub fn select_transactions(transactions: Vec<MempoolTransaction>, capacity: i32) -> (r: Vec<
    String,
>)
    requires
        capacity >= 0,
    ensures
        str_views(r@) == spec_select(tx_views(transactions@), capacity as int),
{
    let ghost input = tx_views(transactions@);
    let ranked = rank_transactions(transactions);
    let ghost rv = tx_views(ranked@);
    let mut chosen_ids: Vec<String> = Vec::new();
    let ghost mut chosen: Seq<TxView> = Seq::empty();
    let mut total: i128 = 0;
    let mut over = false;
    let mut i: usize = 0;
    proof {
        assert(str_views(chosen_ids@) =~= ids_of(chosen));
        assert(rv.skip(0) =~= rv);
    }
    while i < ranked.len() && !over
        invariant
            i <= ranked.len(),
            tx_views(ranked@) == rv,
            str_views(chosen_ids@) == ids_of(chosen),
            total as int == sum_weights(chosen),
            chosen.len() <= i,
            total as int >= (-0x8000_0000) * (chosen.len() as int),
            !over ==> total as int <= capacity as int,
            (if over {
                chosen == admitted(input, capacity as int)
            } else {
                admit_from(rv.skip(i as int), chosen, total as int, capacity as int) == admitted(
                    input,
                    capacity as int,
                )
            }),
        decreases ranked.len() - i,
    {
        let tx = &ranked[i];
        let ghost s = rv.skip(i as int);
        proof {
            assert(s[0] == rv[i as int]);
            assert(rv[i as int] == tx@);
            assert(s.drop_first() =~= rv.skip(i as int + 1));
        }
        let eligible = !contains_id(&chosen_ids, &tx.txid) && all_parents_chosen(
            &chosen_ids,
            &tx.parents,
        );
        assert(eligible == can_admit(tx@, ids_of(chosen)));
        if eligible {
            let w = tx.weight;
            let ghost prev_chosen = chosen;
            let ghost prev_total = total as int;
            proof {
                let n: int = chosen.len() as int;
                assert(n < 0x1_0000_0000_0000_0000);
                assert((-0x8000_0000) * n + (-0x8000_0000) == (-0x8000_0000) * (n
                    + 1)) by (nonlinear_arith);
                assert((-0x8000_0000) * (n + 1)
                    >= -0x8000_0000_0000_0000_0000_0000) by (nonlinear_arith)
                    requires
                        0 <= n < 0x1_0000_0000_0000_0000,
                ;
            }
            chosen_ids.push(tx.txid.clone());
            total = total + (w as i128);
            proof {
                let new_chosen = prev_chosen.push(tx@);
                assert(ids_of(new_chosen) =~= ids_of(prev_chosen).push(tx@.txid));
                assert(str_views(chosen_ids@) =~= ids_of(new_chosen));
                assert(new_chosen.drop_last() =~= prev_chosen);
                assert(sum_weights(new_chosen) == sum_weights(prev_chosen) + tx@.weight);
                chosen = new_chosen;
            }
            if total > capacity as i128 {
                over = true;
                proof {
                    assert(prev_total + tx@.weight > capacity as int);
                    assert(admit_from(s, prev_chosen, prev_total, capacity as int)
                        == prev_chosen.push(tx@));
                }
            } else {
                proof {
                    assert(prev_total + tx@.weight <= capacity as int);
                    assert(admit_from(s, prev_chosen, prev_total, capacity as int) == admit_from(
                        rv.skip(i as int + 1),
                        chosen,
                        total as int,
                        capacity as int,
                    ));
                }
            }
        }
        i += 1;
    }
    proof {
        if !over {
            assert(rv.skip(rv.len() as int) =~= Seq::<TxView>::empty());
            assert(admit_from(rv.skip(i as int), chosen, total as int, capacity as int) == chosen);
        }
    }
    chosen_ids
}

} // verus!
