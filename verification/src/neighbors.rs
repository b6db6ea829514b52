//! Target neighbours: the same-label entries nearest to an anchor, ranked by
//! distance keys with ties broken by position.
use vstd::prelude::*;

use crate::groups::{positives_of, shares_label};
use crate::indices::{lemma_select_members, lemma_select_step, select};

verus! {

/// Entry `a` ranks before entry `b`: a smaller distance key, or the same key
/// and an earlier position.
pub open spec fn ranks_before(keys: Seq<u32>, a: usize, b: usize) -> bool {
    keys[a as int] < keys[b as int] || (keys[a as int] == keys[b as int] && a < b)
}

/// The entries of `s` appear in ranking order.
pub open spec fn ranked(keys: Seq<u32>, s: Seq<usize>) -> bool {
    forall|p: int, q: int| 0 <= p < q < s.len() ==> ranks_before(keys, #[trigger] s[p], #[trigger] s[q])
}

/// `chosen` holds the `count` best-ranked entries of the candidate set
/// `pred` below `n`, in ranking order.
pub open spec fn best_ranked(
    keys: Seq<u32>,
    n: nat,
    pred: spec_fn(usize) -> bool,
    count: nat,
    chosen: Seq<usize>,
) -> bool {
    &&& chosen.len() == count
    &&& ranked(keys, chosen)
    &&& forall|t: int| 0 <= t < chosen.len() ==> (#[trigger] chosen[t]) < n && pred(chosen[t])
    &&& forall|x: usize|
        x < n && #[trigger] pred(x) && !chosen.contains(x) ==> forall|t: int|
            0 <= t < chosen.len() ==> ranks_before(keys, #[trigger] chosen[t], x)
}

/// The target neighbours of `anchor`: its `k` nearest entries among those
/// that share its label, nearest first, where `keys[j]` ranks entry `j` by its
/// distance from the anchor (equal keys for equal distances) and ties go to
/// the earlier entry. Fewer than `k` when the anchor has fewer positives.
pub fn target_neighbors(labels: &[usize], anchor: usize, keys: &[u32], k: usize) -> (chosen: Vec<usize>)
    requires
        anchor < labels@.len(),
        keys@.len() == labels@.len(),
    ensures
        best_ranked(
            keys@,
            labels@.len(),
            shares_label(labels@, anchor as int),
            if k < positives_of(labels@, anchor as int).len() {
                k as nat
            } else {
                positives_of(labels@, anchor as int).len()
            },
            chosen@,
        ),
        chosen@.len() <= k,
        forall|t: int| 0 <= t < chosen@.len() ==> {
            &&& (#[trigger] chosen@[t]) < labels@.len()
            &&& chosen@[t] != anchor
            &&& labels@[chosen@[t] as int] == labels@[anchor as int]
        },
        forall|p: int, q: int| 0 <= p < q < chosen@.len() ==> {
            ||| keys@[#[trigger] chosen@[p] as int] < keys@[#[trigger] chosen@[q] as int]
            ||| (keys@[chosen@[p] as int] == keys@[chosen@[q] as int] && chosen@[p] < chosen@[q])
        },
        forall|x: usize|
            x < labels@.len() && x != anchor && labels@[x as int] == labels@[anchor as int]
                && !(#[trigger] chosen@.contains(x)) ==> {
                &&& chosen@.len() == k
                &&& forall|t: int| 0 <= t < chosen@.len() ==> {
                    ||| keys@[#[trigger] chosen@[t] as int] < keys@[x as int]
                    ||| (keys@[chosen@[t] as int] == keys@[x as int] && chosen@[t] < x)
                }
            },
{
    let n = labels.len();
    let target = labels[anchor];
    let ghost pred = shares_label(labels@, anchor as int);
    let mut sorted: Vec<usize> = Vec::new();
    let mut j: usize = 0;
    while j < n
        invariant
            j <= n,
            n == labels@.len(),
            n == keys@.len(),
            anchor < n,
            target == labels@[anchor as int],
            pred == shares_label(labels@, anchor as int),
            sorted@.len() == select(j as nat, pred).len(),
            ranked(keys@, sorted@),
            forall|x: usize| #[trigger] sorted@.contains(x) <==> (x < j && pred(x)),
        decreases n - j,
    {
        proof {
            lemma_select_step(j as nat, pred);
        }
        if j != anchor && labels[j] == target {
            proof {
                assert forall|t: int| 0 <= t < sorted@.len() implies #[trigger] sorted@[t] < j by {
                    assert(sorted@.contains(sorted@[t]));
                }
            }
            let mut pos: usize = 0;
            while pos < sorted.len() && keys[sorted[pos]] <= keys[j]
                invariant
                    pos <= sorted@.len(),
                    n == keys@.len(),
                    j < n,
                    forall|t: int| 0 <= t < sorted@.len() ==> #[trigger] sorted@[t] < j,
                    forall|t: int| 0 <= t < pos ==> keys@[#[trigger] sorted@[t] as int] <= keys@[j as int],
                decreases sorted@.len() - pos,
            {
                pos = pos + 1;
            }
            let ghost before = sorted@;
            proof {
                assert forall|t: int| pos <= t < before.len() implies keys@[j as int] < keys@[#[trigger] before[t] as int] by {
                    if t > pos {
                        assert(ranks_before(keys@, before[pos as int], before[t]));
                    }
                }
                assert forall|t: int| 0 <= t < before.len() implies (#[trigger] before[t]) < j by {
                    assert(before.contains(before[t]));
                }
            }
            sorted.insert(pos, j);
            proof {
                let after = sorted@;
                assert(after =~= before.subrange(0, pos as int).push(j) + before.subrange(pos as int, before.len() as int));
                assert forall|p: int, q: int| 0 <= p < q < after.len() implies ranks_before(keys@, #[trigger] after[p], #[trigger] after[q]) by {
                    if q < pos {
                        assert(after[p] == before[p] && after[q] == before[q]);
                    } else if q == pos {
                        assert(after[p] == before[p]);
                    } else if p < pos {
                        assert(after[p] == before[p] && after[q] == before[q - 1]);
                        assert(ranks_before(keys@, before[p], before[pos as int]));
                    } else if p == pos {
                        assert(after[q] == before[q - 1]);
                    } else {
                        assert(after[p] == before[p - 1] && after[q] == before[q - 1]);
                    }
                }
                assert forall|x: usize| #[trigger] after.contains(x) <==> (x < j + 1 && pred(x)) by {
                    if x == j {
                        assert(after[pos as int] == j);
                    } else if after.contains(x) {
                        let t = choose|t: int| 0 <= t < after.len() && after[t] == x;
                        if t < pos {
                            assert(before[t] == x);
                        } else {
                            assert(before[t - 1] == x);
                        }
                        assert(before.contains(x));
                    } else if x < j + 1 && pred(x) {
                        assert(before.contains(x));
                        let t = choose|t: int| 0 <= t < before.len() && before[t] == x;
                        if t < pos {
                            assert(after[t] == x);
                        } else {
                            assert(after[t + 1] == x);
                        }
                    }
                }
            }
        } else {
            proof {
                assert forall|x: usize| #[trigger] sorted@.contains(x) <==> (x < j + 1 && pred(x)) by {
                    if x == j {
                        assert(!pred(x));
                    }
                }
            }
        }
        j = j + 1;
    }
    proof {
        lemma_select_members(n as nat, pred);
    }
    let ghost all = sorted@;
    sorted.truncate(k);
    proof {
        let chosen = sorted@;
        assert forall|t: int| 0 <= t < chosen.len() implies (#[trigger] chosen[t]) < n && pred(chosen[t]) by {
            assert(all[t] == chosen[t]);
            assert(all.contains(all[t]));
        }
        assert forall|x: usize| x < n && #[trigger] pred(x) && !chosen.contains(x) implies forall|t: int|
            0 <= t < chosen.len() ==> ranks_before(keys@, #[trigger] chosen[t], x) by {
            assert(all.contains(x));
            let s = choose|s: int| 0 <= s < all.len() && all[s] == x;
            if s < chosen.len() {
                assert(chosen[s] == x);
            }
            assert forall|t: int| 0 <= t < chosen.len() implies ranks_before(keys@, #[trigger] chosen[t], x) by {
                assert(all[t] == chosen[t]);
            }
        }
        assert forall|x: usize|
            x < labels@.len() && x != anchor && labels@[x as int] == labels@[anchor as int]
                && !(#[trigger] chosen.contains(x)) implies chosen.len() == k by {
            assert(pred(x));
            assert(all.contains(x));
            let s = choose|s: int| 0 <= s < all.len() && all[s] == x;
            if s < chosen.len() {
                assert(chosen[s] == x);
            }
        }
        law_neighbors_by_key(keys@, n as nat, pred, chosen.len(), chosen);
        assert forall|x: usize|
            x < labels@.len() && x != anchor && labels@[x as int] == labels@[anchor as int]
                && !(#[trigger] chosen.contains(x)) implies pred(x) by {}
    }
    sorted
}

/// Target neighbours are ranked by the whole distance key: along the chosen
/// list the keys never decrease (equal keys keep their positions in order),
/// and every candidate left out has a key at least that of each chosen one,
/// and, on an equal key, comes later.
pub proof fn law_neighbors_by_key(
    keys: Seq<u32>,
    n: nat,
    pred: spec_fn(usize) -> bool,
    count: nat,
    chosen: Seq<usize>,
)
    requires
        best_ranked(keys, n, pred, count, chosen),
    ensures
        forall|p: int, q: int| 0 <= p < q < chosen.len() ==> {
            ||| keys[#[trigger] chosen[p] as int] < keys[#[trigger] chosen[q] as int]
            ||| (keys[chosen[p] as int] == keys[chosen[q] as int] && chosen[p] < chosen[q])
        },
        forall|p: int, q: int| 0 <= p < q < chosen.len() ==> keys[#[trigger] chosen[p] as int]
            <= keys[#[trigger] chosen[q] as int],
        forall|x: usize, t: int|
            x < n && pred(x) && !chosen.contains(x) && 0 <= t < chosen.len() ==> {
                &&& keys[#[trigger] chosen[t] as int] <= #[trigger] keys[x as int]
                &&& (keys[chosen[t] as int] == keys[x as int] ==> chosen[t] < x)
            },
{
    assert forall|x: usize, t: int|
        x < n && pred(x) && !chosen.contains(x) && 0 <= t < chosen.len() implies {
            &&& keys[#[trigger] chosen[t] as int] <= #[trigger] keys[x as int]
            &&& (keys[chosen[t] as int] == keys[x as int] ==> chosen[t] < x)
        } by {
        assert(ranks_before(keys, chosen[t], x));
    }
}

/// Two best-ranked lists of the same candidates agree up to the shorter one:
/// asking for more target neighbours only extends the list, the `k` nearest
/// being the first `k` of the `k2` nearest whenever `k <= k2`.
pub proof fn law_more_neighbors_extend(
    keys: Seq<u32>,
    n: nat,
    pred: spec_fn(usize) -> bool,
    k: nat,
    k2: nat,
    fewer: Seq<usize>,
    more: Seq<usize>,
)
    requires
        k <= k2,
        best_ranked(keys, n, pred, k, fewer),
        best_ranked(keys, n, pred, k2, more),
    ensures
        fewer == more.take(k as int),
{
    lemma_agree_below(keys, n, pred, k, k2, fewer, more, k);
    assert(fewer =~= more.take(k as int));
}

proof fn lemma_agree_below(
    keys: Seq<u32>,
    n: nat,
    pred: spec_fn(usize) -> bool,
    k: nat,
    k2: nat,
    fewer: Seq<usize>,
    more: Seq<usize>,
    upto: nat,
)
    requires
        k <= k2,
        upto <= k,
        best_ranked(keys, n, pred, k, fewer),
        best_ranked(keys, n, pred, k2, more),
    ensures
        forall|s: int| 0 <= s < upto ==> fewer[s] == more[s],
    decreases upto,
{
    if upto > 0 {
        let t = upto - 1;
        lemma_agree_below(keys, n, pred, k, k2, fewer, more, (upto - 1) as nat);
        let a = fewer[t];
        let b = more[t];
        if a != b {
            assert(pred(a) && a < n);
            assert(pred(b) && b < n);
            if ranks_before(keys, a, b) {
                if more.contains(a) {
                    let u = choose|u: int| 0 <= u < more.len() && more[u] == a;
                    if u < t {
                        assert(fewer[u] == a);
                        assert(ranks_before(keys, fewer[u], fewer[t]));
                    } else {
                        assert(ranks_before(keys, more[t], more[u]));
                    }
                } else {
                    assert(ranks_before(keys, more[t], a));
                }
            } else {
                assert(ranks_before(keys, b, a));
                if fewer.contains(b) {
                    let u = choose|u: int| 0 <= u < fewer.len() && fewer[u] == b;
                    if u < t {
                        assert(more[u] == b);
                        assert(ranks_before(keys, more[u], more[t]));
                    } else {
                        assert(ranks_before(keys, fewer[t], fewer[u]));
                    }
                } else {
                    assert(ranks_before(keys, fewer[t], b));
                }
            }
        }
    }
}

} // verus!
