//! Index sequences selected by a predicate, and the facts that the selecting
//! functions of this crate share.
use vstd::prelude::*;

verus! {

/// The indices `0, 1, ..., n - 1`, in increasing order.
pub open spec fn index_range(n: nat) -> Seq<usize> {
    Seq::new(n, |i: int| i as usize)
}

/// The indices below `n` that satisfy `pred`, in increasing order.
pub open spec fn select(n: nat, pred: spec_fn(usize) -> bool) -> Seq<usize> {
    index_range(n).filter(pred)
}

/// A sequence whose entries strictly increase.
pub open spec fn strictly_increasing(s: Seq<usize>) -> bool {
    forall|a: int, b: int| 0 <= a < b < s.len() ==> s[a] < s[b]
}

/// Whether `s` holds `x`, computed by a scan of `s`.
pub fn contains_index(s: &[usize], x: usize) -> (found: bool)
    ensures
        found == s@.contains(x),
{
    let mut k: usize = 0;
    while k < s.len()
        invariant
            k <= s.len(),
            forall|j: int| 0 <= j < k ==> s@[j] != x,
        decreases s.len() - k,
    {
        if s[k] == x {
            return true;
        }
        k = k + 1;
    }
    false
}

/// One more index: `select(n + 1, pred)` extends `select(n, pred)` by `n`
/// exactly when `pred` holds of `n`.
pub proof fn lemma_select_step(n: nat, pred: spec_fn(usize) -> bool)
    requires
        n < usize::MAX,
    ensures
        select(n + 1, pred) == if pred(n as usize) {
            select(n, pred).push(n as usize)
        } else {
            select(n, pred)
        },
{
    reveal(Seq::filter);
    assert(index_range(n + 1).drop_last() =~= index_range(n));
}

/// What `select` holds: exactly the indices below `n` that satisfy `pred`,
/// each once, in increasing order.
pub proof fn lemma_select_members(n: nat, pred: spec_fn(usize) -> bool)
    requires
        n <= usize::MAX,
    ensures
        forall|k: int| 0 <= k < select(n, pred).len() ==> {
            &&& (#[trigger] select(n, pred)[k]) < n
            &&& pred(select(n, pred)[k])
        },
        forall|x: usize| #[trigger] select(n, pred).contains(x) <==> (x < n && pred(x)),
        strictly_increasing(select(n, pred)),
        select(n, pred).no_duplicates(),
    decreases n,
{
    if n > 0 {
        let m = (n - 1) as nat;
        lemma_select_members(m, pred);
        lemma_select_step(m, pred);
        let prev = select(m, pred);
        let cur = select(n, pred);
        if pred(m as usize) {
            assert(cur == prev.push(m as usize));
            assert forall|x: usize| #[trigger] cur.contains(x) <==> (x < n && pred(x)) by {
                if x == m as usize {
                    assert(cur[prev.len() as int] == x);
                } else if cur.contains(x) {
                    let k = choose|k: int| 0 <= k < cur.len() && cur[k] == x;
                    assert(prev[k] == x);
                } else if x < n && pred(x) {
                    assert(prev.contains(x));
                    let k = choose|k: int| 0 <= k < prev.len() && prev[k] == x;
                    assert(cur[k] == x);
                }
            }
        } else {
            assert(cur == prev);
        }
    } else {
        assert(select(0, pred) =~= Seq::<usize>::empty()) by {
            reveal(Seq::filter);
        }
    }
}

} // verus!
