//! The bounded ranking structure that search drives over a full scan.
//!
//! A candidate is a pair `(score, index)`: the similarity score of the record
//! at that index. The ranking keeps at most `k` candidates, sorted by
//! descending score; candidates with equal scores are kept in the order the
//! records were stored, earlier records first. That tie-break is total, so
//! the selection is unique: the kept candidates beat every candidate that
//! was passed over.

use vstd::prelude::*;

verus! {

/// `a` ranks strictly ahead of `b`: a higher score wins, and on equal scores
/// the record stored earlier wins.
pub open spec fn entry_better(a: (int, int), b: (int, int)) -> bool {
    a.0 > b.0 || (a.0 == b.0 && a.1 < b.1)
}

/// Where a new entry lands: after every entry whose score is at least as
/// high, before the first strictly lower one.
pub open spec fn insert_pos(acc: Seq<(int, int)>, e: (int, int)) -> int
    decreases acc.len(),
{
    if acc.len() == 0 {
        0
    } else if acc[0].0 < e.0 {
        0
    } else {
        1 + insert_pos(acc.drop_first(), e)
    }
}

/// One step of bounded ranking: place the entry at its position and keep
/// only the best `k`.
pub open spec fn topk_insert(acc: Seq<(int, int)>, e: (int, int), k: int) -> Seq<(int, int)> {
    let ins = acc.insert(insert_pos(acc, e), e);
    if ins.len() <= k {
        ins
    } else {
        ins.take(k)
    }
}

/// The ranking after scanning the first `n` scores.
pub open spec fn topk_prefix(scores: Seq<int>, n: int, k: int) -> Seq<(int, int)>
    decreases n,
{
    if n <= 0 {
        Seq::empty()
    } else {
        topk_insert(topk_prefix(scores, n - 1, k), (scores[n - 1], n - 1), k)
    }
}

/// The `k` best (score, index) entries over all scores, sorted by descending
/// score, ties broken by ascending index.
pub open spec fn topk(scores: Seq<int>, k: int) -> Seq<(int, int)> {
    topk_prefix(scores, scores.len() as int, k)
}

/// Whether some entry of `acc` points at record `j`.
pub open spec fn selected(acc: Seq<(int, int)>, j: int) -> bool {
    exists|p: int| 0 <= p < acc.len() && (#[trigger] acc[p]).1 == j
}

/// Everything the ranking guarantees after scanning the first `n` scores:
/// its length, that entries carry true scores of records seen so far, strict
/// descending order, that every record is kept while there is room, and that
/// every kept entry beats every record passed over.
pub open spec fn topk_inv(acc: Seq<(int, int)>, scores: Seq<int>, n: int, k: int) -> bool {
    &&& acc.len() == if n <= k {
        n
    } else {
        k
    }
    &&& (forall|p: int|
        0 <= p < acc.len() ==> 0 <= (#[trigger] acc[p]).1 < n && acc[p].0 == scores[acc[p].1])
    &&& (forall|p: int, q: int|
        0 <= p < q < acc.len() ==> entry_better(#[trigger] acc[p], #[trigger] acc[q]))
    &&& (n <= k ==> forall|j: int| 0 <= j < n ==> selected(acc, j))
    &&& (forall|j: int, p: int|
        #![trigger acc[p], scores[j]]
        0 <= j < n && !selected(acc, j) && 0 <= p < acc.len() ==> entry_better(
            acc[p],
            (scores[j], j),
        ))
}

/// The defining properties of [`insert_pos`].
pub proof fn lemma_insert_pos_props(acc: Seq<(int, int)>, e: (int, int))
    ensures
        0 <= insert_pos(acc, e) <= acc.len(),
        forall|p: int| 0 <= p < insert_pos(acc, e) ==> (#[trigger] acc[p]).0 >= e.0,
        insert_pos(acc, e) < acc.len() ==> acc[insert_pos(acc, e)].0 < e.0,
    decreases acc.len(),
{
    if acc.len() > 0 && !(acc[0].0 < e.0) {
        lemma_insert_pos_props(acc.drop_first(), e);
        let pos = insert_pos(acc, e);
        assert forall|p: int| 0 <= p < pos implies (#[trigger] acc[p]).0 >= e.0 by {
            if p > 0 {
                assert(acc.drop_first()[p - 1] == acc[p]);
            }
        }
        if pos < acc.len() {
            assert(acc.drop_first()[pos - 1] == acc[pos]);
        }
    }
}

/// The ranking invariant holds after every prefix scan.
pub proof fn lemma_topk_prefix_inv(scores: Seq<int>, n: int, k: int)
    requires
        0 <= n <= scores.len(),
        k >= 0,
    ensures
        topk_inv(topk_prefix(scores, n, k), scores, n, k),
    decreases n,
{
    if n > 0 {
        lemma_topk_prefix_inv(scores, n - 1, k);
        let acc = topk_prefix(scores, n - 1, k);
        let e = (scores[n - 1], n - 1);
        lemma_insert_pos_props(acc, e);
        let pos = insert_pos(acc, e);
        let ins = acc.insert(pos, e);
        acc.insert_ensures(pos, e);
        let res = topk_prefix(scores, n, k);
        assert(res == topk_insert(acc, e, k));

        // Entries of ins: acc entries shifted around e.
        assert(forall|p: int| 0 <= p < pos ==> ins[p] == acc[p]);
        assert(forall|p: int| pos < p < ins.len() ==> ins[p] == acc[p - 1]);
        assert(ins[pos] == e);

        // Domain: every entry of ins points below n and carries a true score.
        assert forall|p: int|
            0 <= p < ins.len() implies 0 <= (#[trigger] ins[p]).1 < n && ins[p].0
            == scores[ins[p].1] by {
            if p < pos {
                assert(ins[p] == acc[p]);
            } else if p > pos {
                assert(ins[p] == acc[p - 1]);
            }
        }

        // Order: ins is strictly descending under entry_better.
        assert forall|p: int, q: int|
            0 <= p < q < ins.len() implies entry_better(#[trigger] ins[p], #[trigger] ins[q]) by {
            if q < pos {
                assert(ins[p] == acc[p] && ins[q] == acc[q]);
            } else if p > pos {
                assert(ins[p] == acc[p - 1] && ins[q] == acc[q - 1]);
            } else if p < pos && q == pos {
                // acc[p] scores at least e and was stored earlier.
                assert(acc[p].0 >= e.0 && acc[p].1 < n - 1);
            } else if p == pos && q > pos {
                // e strictly outscores everything from the position on.
                assert(ins[q] == acc[q - 1]);
                if q - 1 > pos {
                    assert(entry_better(acc[pos], acc[q - 1]));
                }
                assert(acc[pos].0 < e.0);
            } else {
                // p < pos < q: combine both sides.
                assert(ins[q] == acc[q - 1]);
                assert(acc[pos].0 < e.0);
                if q - 1 > pos {
                    assert(entry_better(acc[pos], acc[q - 1]));
                }
                assert(acc[p].0 >= e.0);
            }
        }

        if ins.len() <= k {
            assert(res == ins);
            lemma_topk_step_full(scores, n, k, acc, e, res);
        } else {
            assert(acc.len() == k && ins.len() == k + 1);
            assert(res == ins.take(k));
            assert(forall|p: int| 0 <= p < k ==> res[p] == ins[p]);
            lemma_topk_step_bounded(scores, n, k, acc, e, ins, res);
        }
    }
}

/// The step case while there is still room: nothing is dropped.
proof fn lemma_topk_step_full(scores: Seq<int>, n: int, k: int, acc: Seq<(int, int)>, e: (
    int,
    int,
), res: Seq<(int, int)>)
    requires
        0 < n <= scores.len(),
        k >= 0,
        topk_inv(acc, scores, n - 1, k),
        e == (scores[n - 1], n - 1),
        res == acc.insert(insert_pos(acc, e), e),
        res.len() <= k,
        forall|p: int|
            0 <= p < res.len() ==> 0 <= (#[trigger] res[p]).1 < n && res[p].0 == scores[res[p].1],
        forall|p: int, q: int|
            0 <= p < q < res.len() ==> entry_better(#[trigger] res[p], #[trigger] res[q]),
    ensures
        topk_inv(res, scores, n, k),
{
    lemma_insert_pos_props(acc, e);
    let pos = insert_pos(acc, e);
    acc.insert_ensures(pos, e);
    assert(acc.len() == n - 1) by {
        if n - 1 > k {
            assert(acc.len() == k && res.len() == k + 1);
        }
    }
    // Everything seen so far is still selected.
    assert forall|j: int| 0 <= j < n implies selected(res, j) by {
        if j == n - 1 {
            assert(res[pos] == e);
        } else {
            assert(selected(acc, j));
            let p = choose|p: int| 0 <= p < acc.len() && (#[trigger] acc[p]).1 == j;
            if p < pos {
                assert(res[p] == acc[p]);
            } else {
                assert(res[p + 1] == acc[p]);
            }
        }
    }
    // And hence nothing was passed over.
    assert forall|j: int, p: int|
        #![trigger res[p], scores[j]]
        0 <= j < n && !selected(res, j) && 0 <= p < res.len() implies entry_better(
        res[p],
        (scores[j], j),
    ) by {
        assert(selected(res, j));
    }
}

/// The step case at capacity: the single worst entry is dropped, and every
/// kept entry beats it and everything previously passed over.
proof fn lemma_topk_step_bounded(
    scores: Seq<int>,
    n: int,
    k: int,
    acc: Seq<(int, int)>,
    e: (int, int),
    ins: Seq<(int, int)>,
    res: Seq<(int, int)>,
)
    requires
        0 < n <= scores.len(),
        k >= 0,
        topk_inv(acc, scores, n - 1, k),
        acc.len() == k,
        e == (scores[n - 1], n - 1),
        ins == acc.insert(insert_pos(acc, e), e),
        res == ins.take(k),
        forall|p: int|
            0 <= p < ins.len() ==> 0 <= (#[trigger] ins[p]).1 < n && ins[p].0 == scores[ins[p].1],
        forall|p: int, q: int|
            0 <= p < q < ins.len() ==> entry_better(#[trigger] ins[p], #[trigger] ins[q]),
    ensures
        topk_inv(res, scores, n, k),
{
    lemma_insert_pos_props(acc, e);
    let pos = insert_pos(acc, e);
    acc.insert_ensures(pos, e);
    assert(ins.len() == k + 1);
    assert(res.len() == k);
    assert(forall|p: int| 0 <= p < k ==> res[p] == ins[p]);
    assert(n - 1 >= k);

    // The dropped entry is the worst of ins.
    let w = ins[k as int];

    // An index selected in ins but not in res belongs to the dropped entry.
    assert forall|j: int, p: int|
        #![trigger res[p], scores[j]]
        0 <= j < n && !selected(res, j) && 0 <= p < res.len() implies entry_better(
        res[p],
        (scores[j], j),
    ) by {
        if selected(ins, j) {
            let q = choose|q: int| 0 <= q < ins.len() && (#[trigger] ins[q]).1 == j;
            assert(q == k as int) by {
                if q < k {
                    assert(res[q] == ins[q]);
                }
            }
            // The dropped entry carries j's true score, and everything kept
            // beats it by the order of ins.
            assert(w.1 == j && w.0 == scores[j]);
            assert(entry_better(ins[p], w));
        } else {
            // j was already passed over before this step.
            assert(!selected(acc, j)) by {
                if selected(acc, j) {
                    let q = choose|q: int| 0 <= q < acc.len() && (#[trigger] acc[q]).1 == j;
                    if q < pos {
                        assert(ins[q] == acc[q]);
                    } else {
                        assert(ins[q + 1] == acc[q]);
                    }
                }
            }
            if j == n - 1 {
                // e itself was dropped: it sits at or past position k.
                assert(pos == k as int) by {
                    if pos < k {
                        assert(ins[pos] == e);
                        assert(res[pos] == e);
                    }
                }
                assert(res[p] == ins[p] && p < k);
                assert(ins[p] == acc[p]);
                assert(acc[p].0 >= e.0);
                assert(acc[p].1 < n - 1);
            } else {
                // Passed over earlier: every old entry beats j, and if e is
                // kept, e outscores some old entry that already beats j.
                assert(entry_better(acc[p], (scores[j], j)) || res[p] == e) by {
                    if p < pos {
                        assert(res[p] == acc[p]);
                    } else if res[p] != e {
                        assert(res[p] == ins[p] && ins[p] == acc[p - 1]);
                    }
                }
                if res[p] == e {
                    // pos < k, so the entry at pos in acc outscores e... no:
                    // acc[pos].0 < e.0 and acc[pos] beats j, so e beats j.
                    assert(pos < k as int) by {
                        if pos == k {
                            assert(res[p] == ins[p] && p < k);
                        }
                    }
                    assert(acc[pos as int].0 < e.0);
                    assert(entry_better(acc[pos as int], (scores[j], j)));
                    assert(entry_better(e, (scores[j], j)));
                }
            }
        }
    }
}

} // verus!
