//! Grouping of a labelled batch: which entries share a label with an anchor,
//! which entries carry a class, which classes occur, and which pairs of
//! entries are positive pairs.
use vstd::prelude::*;

use crate::indices::{lemma_select_members, lemma_select_step, select};

verus! {

/// Entry `j` is not the anchor and carries the anchor's label.
pub open spec fn shares_label(labels: Seq<usize>, anchor: int) -> spec_fn(usize) -> bool {
    |j: usize| j as int != anchor && labels[j as int] == labels[anchor]
}

/// Entry `j` carries label `class`.
pub open spec fn has_label(labels: Seq<usize>, class: usize) -> spec_fn(usize) -> bool {
    |j: usize| labels[j as int] == class
}

/// Entry `j` does not carry label `class`.
pub open spec fn lacks_label(labels: Seq<usize>, class: usize) -> spec_fn(usize) -> bool {
    |j: usize| labels[j as int] != class
}

/// The entries other than `anchor` that carry the anchor's label, in
/// increasing order.
pub open spec fn positives_of(labels: Seq<usize>, anchor: int) -> Seq<usize> {
    select(labels.len(), shares_label(labels, anchor))
}

/// The entries that carry label `class`, in increasing order.
pub open spec fn members_of(labels: Seq<usize>, class: usize) -> Seq<usize> {
    select(labels.len(), has_label(labels, class))
}

/// The entries that do not carry label `class`, in increasing order.
pub open spec fn non_members_of(labels: Seq<usize>, class: usize) -> Seq<usize> {
    select(labels.len(), lacks_label(labels, class))
}

/// Entry `j` comes after entry `i` and carries the same label.
pub open spec fn later_with_label(labels: Seq<usize>, i: usize) -> spec_fn(usize) -> bool {
    |j: usize| j > i && labels[j as int] == labels[i as int]
}

/// The positive pairs whose first entry is `i`: `(i, j)` for each later `j`
/// with the same label, in increasing order of `j`, among the first `upto`
/// entries.
pub open spec fn pair_row(labels: Seq<usize>, i: usize, upto: nat) -> Seq<(usize, usize)> {
    select(upto, later_with_label(labels, i)).map_values(|j: usize| (i, j))
}

/// The positive pairs `(i, j)` with `i < j` whose first entry lies below
/// `rows`, in increasing order of `i` and then of `j`.
pub open spec fn pairs_before(labels: Seq<usize>, rows: nat) -> Seq<(usize, usize)>
    decreases rows,
{
    if rows == 0 {
        Seq::empty()
    } else {
        pairs_before(labels, (rows - 1) as nat) + pair_row(labels, (rows - 1) as usize, labels.len())
    }
}

/// Every pair `(i, j)` with `i < j` of entries that carry the same label, in
/// increasing order of `i` and then of `j`.
pub open spec fn positive_pairs_of(labels: Seq<usize>) -> Seq<(usize, usize)> {
    pairs_before(labels, labels.len())
}

/// The entries other than `anchor` that share its label, in increasing order.
pub fn anchor_positives(labels: &[usize], anchor: usize) -> (found: Vec<usize>)
    requires
        anchor < labels@.len(),
    ensures
        found@ == positives_of(labels@, anchor as int),
        forall|x: usize| #[trigger] found@.contains(x) <==> (x as int != anchor as int && x < labels@.len() && labels@[x as int] == labels@[anchor as int]),
        forall|p: int, q: int| 0 <= p < q < found@.len() ==> #[trigger] found@[p] < #[trigger] found@[q],
{
    let n = labels.len();
    let target = labels[anchor];
    let mut found: Vec<usize> = Vec::new();
    let mut j: usize = 0;
    while j < n
        invariant
            j <= n,
            n == labels@.len(),
            anchor < n,
            target == labels@[anchor as int],
            found@ == select(j as nat, shares_label(labels@, anchor as int)),
        decreases n - j,
    {
        proof {
            lemma_select_step(j as nat, shares_label(labels@, anchor as int));
        }
        if j != anchor && labels[j] == target {
            found.push(j);
        }
        j = j + 1;
    }
    proof {
        lemma_select_members(n as nat, shares_label(labels@, anchor as int));
    }
    found
}

/// The entries that carry label `class`, in increasing order.
pub fn class_members(labels: &[usize], class: usize) -> (found: Vec<usize>)
    ensures
        found@ == members_of(labels@, class),
        forall|x: usize| #[trigger] found@.contains(x) <==> (x < labels@.len() && labels@[x as int] == class),
        forall|p: int, q: int| 0 <= p < q < found@.len() ==> #[trigger] found@[p] < #[trigger] found@[q],
{
    let n = labels.len();
    let mut found: Vec<usize> = Vec::new();
    let mut j: usize = 0;
    while j < n
        invariant
            j <= n,
            n == labels@.len(),
            found@ == select(j as nat, has_label(labels@, class)),
        decreases n - j,
    {
        proof {
            lemma_select_step(j as nat, has_label(labels@, class));
        }
        if labels[j] == class {
            found.push(j);
        }
        j = j + 1;
    }
    proof {
        lemma_select_members(n as nat, has_label(labels@, class));
    }
    found
}

/// The entries that do not carry label `class`, in increasing order.
pub fn class_non_members(labels: &[usize], class: usize) -> (found: Vec<usize>)
    ensures
        found@ == non_members_of(labels@, class),
        forall|x: usize| #[trigger] found@.contains(x) <==> (x < labels@.len() && labels@[x as int] != class),
        forall|p: int, q: int| 0 <= p < q < found@.len() ==> #[trigger] found@[p] < #[trigger] found@[q],
{
    let n = labels.len();
    let mut found: Vec<usize> = Vec::new();
    let mut j: usize = 0;
    while j < n
        invariant
            j <= n,
            n == labels@.len(),
            found@ == select(j as nat, lacks_label(labels@, class)),
        decreases n - j,
    {
        proof {
            lemma_select_step(j as nat, lacks_label(labels@, class));
        }
        if labels[j] != class {
            found.push(j);
        }
        j = j + 1;
    }
    proof {
        lemma_select_members(n as nat, lacks_label(labels@, class));
    }
    found
}

/// For each class below `num_classes`, whether some entry carries it.
pub fn classes_present(labels: &[usize], num_classes: usize) -> (present: Vec<bool>)
    ensures
        present@.len() == num_classes,
        forall|c: int| 0 <= c < num_classes ==> present@[c] == labels@.contains(c as usize),
{
    let mut present: Vec<bool> = vec![false; num_classes];
    let n = labels.len();
    let mut t: usize = 0;
    while t < n
        invariant
            t <= n,
            n == labels@.len(),
            present@.len() == num_classes,
            forall|c: int| 0 <= c < num_classes ==> present@[c] == labels@.take(t as int).contains(c as usize),
        decreases n - t,
    {
        let l = labels[t];
        if l < num_classes {
            present.set(l, true);
        }
        proof {
            assert(labels@.take(t + 1) =~= labels@.take(t as int).push(l));
            assert forall|c: int| 0 <= c < num_classes implies present@[c] == labels@.take(t + 1).contains(c as usize) by {
                let before = labels@.take(t as int);
                if before.contains(c as usize) {
                    let k = choose|k: int| 0 <= k < before.len() && before[k] == c as usize;
                    assert(labels@.take(t + 1)[k] == c as usize);
                }
                if c == l {
                    assert(labels@.take(t + 1)[t as int] == l);
                }
            }
        }
        t = t + 1;
    }
    assert(labels@.take(n as int) =~= labels@);
    present
}

/// Every pair `(i, j)` with `i < j` of entries that carry the same label, in
/// increasing order of `i` and then of `j`.
pub fn positive_pairs(labels: &[usize]) -> (pairs: Vec<(usize, usize)>)
    ensures
        pairs@ == positive_pairs_of(labels@),
        forall|i: usize, j: usize| #[trigger] pairs@.contains((i, j)) <==> (i < j < labels@.len()
            && labels@[i as int] == labels@[j as int]),
        forall|p: int, q: int| 0 <= p < q < pairs@.len() ==> {
            ||| (#[trigger] pairs@[p]).0 < (#[trigger] pairs@[q]).0
            ||| (pairs@[p].0 == pairs@[q].0 && pairs@[p].1 < pairs@[q].1)
        },
        pairs@.no_duplicates(),
{
    let n = labels.len();
    let mut pairs: Vec<(usize, usize)> = Vec::new();
    let mut i: usize = 0;
    while i < n
        invariant
            i <= n,
            n == labels@.len(),
            pairs@ == pairs_before(labels@, i as nat),
        decreases n - i,
    {
        let ghost before = pairs@;
        proof {
            lemma_select_members((i + 1) as nat, later_with_label(labels@, i));
            if select((i + 1) as nat, later_with_label(labels@, i)).len() > 0 {
                assert(select((i + 1) as nat, later_with_label(labels@, i)).contains(
                    select((i + 1) as nat, later_with_label(labels@, i))[0],
                ));
            }
            assert(pair_row(labels@, i, (i + 1) as nat) =~= Seq::<(usize, usize)>::empty());
        }
        let mut j: usize = i + 1;
        while j < n
            invariant
                i < j <= n,
                n == labels@.len(),
                pairs@ == before + pair_row(labels@, i, j as nat),
            decreases n - j,
        {
            proof {
                lemma_select_step(j as nat, later_with_label(labels@, i));
            }
            if labels[i] == labels[j] {
                pairs.push((i, j));
                assert(pair_row(labels@, i, (j + 1) as nat) =~= pair_row(labels@, i, j as nat).push(
                    (i, j),
                ));
            } else {
                assert(pair_row(labels@, i, (j + 1) as nat) =~= pair_row(labels@, i, j as nat));
            }
            assert(pairs@ =~= before + pair_row(labels@, i, (j + 1) as nat));
            j = j + 1;
        }
        i = i + 1;
    }
    proof {
        law_positive_pairs_ordered(labels@);
        assert forall|a: usize, b: usize| #[trigger] pairs@.contains((a, b)) <==> (a < b
            < labels@.len() && labels@[a as int] == labels@[b as int]) by {
            law_positive_pair_members(labels@, a, b);
        }
    }
    pairs
}

/// The positive pairs come in strictly increasing order of `(i, j)`, first
/// entry first: each pair is listed once.
pub proof fn law_positive_pairs_ordered(labels: Seq<usize>)
    requires
        labels.len() <= usize::MAX,
    ensures
        forall|p: int, q: int| 0 <= p < q < positive_pairs_of(labels).len() ==> {
            ||| (#[trigger] positive_pairs_of(labels)[p]).0 < (#[trigger] positive_pairs_of(
                labels,
            )[q]).0
            ||| (positive_pairs_of(labels)[p].0 == positive_pairs_of(labels)[q].0
                && positive_pairs_of(labels)[p].1 < positive_pairs_of(labels)[q].1)
        },
        positive_pairs_of(labels).no_duplicates(),
{
    lemma_pairs_before_ordered(labels, labels.len());
}

proof fn lemma_pairs_before_ordered(labels: Seq<usize>, rows: nat)
    requires
        labels.len() <= usize::MAX,
        rows <= labels.len(),
    ensures
        forall|p: int| 0 <= p < pairs_before(labels, rows).len() ==> (#[trigger] pairs_before(
            labels,
            rows,
        )[p]).0 < rows,
        forall|p: int, q: int| 0 <= p < q < pairs_before(labels, rows).len() ==> {
            ||| (#[trigger] pairs_before(labels, rows)[p]).0 < (#[trigger] pairs_before(
                labels,
                rows,
            )[q]).0
            ||| (pairs_before(labels, rows)[p].0 == pairs_before(labels, rows)[q].0
                && pairs_before(labels, rows)[p].1 < pairs_before(labels, rows)[q].1)
        },
        pairs_before(labels, rows).no_duplicates(),
    decreases rows,
{
    if rows > 0 {
        let r = (rows - 1) as usize;
        lemma_pairs_before_ordered(labels, (rows - 1) as nat);
        lemma_select_members(labels.len(), later_with_label(labels, r));
        let prev = pairs_before(labels, (rows - 1) as nat);
        let sel = select(labels.len(), later_with_label(labels, r));
        let row = pair_row(labels, r, labels.len());
        let all = pairs_before(labels, rows);
        assert(all == prev + row);
        assert forall|p: int| 0 <= p < all.len() implies (#[trigger] all[p]).0 < rows by {
            if p >= prev.len() {
                assert(all[p] == row[p - prev.len()]);
            }
        }
        assert forall|p: int, q: int| 0 <= p < q < all.len() implies {
            ||| (#[trigger] all[p]).0 < (#[trigger] all[q]).0
            ||| (all[p].0 == all[q].0 && all[p].1 < all[q].1)
        } by {
            if q < prev.len() {
                assert(all[p] == prev[p] && all[q] == prev[q]);
            } else if p < prev.len() {
                assert(all[p] == prev[p]);
                assert(all[q] == row[q - prev.len()]);
            } else {
                assert(all[p] == row[p - prev.len()] && all[q] == row[q - prev.len()]);
                assert(sel[p - prev.len()] < sel[q - prev.len()]);
            }
        }
        assert forall|p: int, q: int| 0 <= p < all.len() && 0 <= q < all.len() && p != q implies all[p]
            != all[q] by {
            if p < q {
                assert(all[p].0 < all[q].0 || (all[p].0 == all[q].0 && all[p].1 < all[q].1));
            } else {
                assert(all[q].0 < all[p].0 || (all[q].0 == all[p].0 && all[q].1 < all[p].1));
            }
        }
    } else {
        assert(pairs_before(labels, 0) =~= Seq::<(usize, usize)>::empty());
    }
}

/// Counting both sides of a predicate: the indices below `n` that satisfy
/// `pred` and those that do not number `n` together.
proof fn lemma_select_complement(n: nat, pred: spec_fn(usize) -> bool, other: spec_fn(usize) -> bool)
    requires
        n <= usize::MAX,
        forall|x: usize| #[trigger] other(x) == !pred(x),
    ensures
        select(n, pred).len() + select(n, other).len() == n,
    decreases n,
{
    if n > 0 {
        lemma_select_complement((n - 1) as nat, pred, other);
        lemma_select_step((n - 1) as nat, pred);
        lemma_select_step((n - 1) as nat, other);
        assert(other((n - 1) as usize) == !pred((n - 1) as usize));
    } else {
        lemma_select_members(0, pred);
        lemma_select_members(0, other);
    }
}

/// Around an anchor, every entry is exactly one of: the anchor itself, one
/// of its positives (same label), or one of the entries without its label.
pub proof fn law_anchor_partition(labels: Seq<usize>, anchor: int, j: usize)
    requires
        labels.len() <= usize::MAX,
        0 <= anchor < labels.len(),
        j < labels.len(),
    ensures
        positives_of(labels, anchor).contains(j) <==> (j as int != anchor && labels[j as int]
            == labels[anchor]),
        non_members_of(labels, labels[anchor]).contains(j) <==> labels[j as int] != labels[anchor],
        (j as int == anchor) as int + positives_of(labels, anchor).contains(j) as int
            + non_members_of(labels, labels[anchor]).contains(j) as int == 1,
{
    lemma_select_members(labels.len(), shares_label(labels, anchor));
    lemma_select_members(labels.len(), lacks_label(labels, labels[anchor]));
}

/// For any class, the entries that carry it and the entries that do not
/// split the batch: no entry is in both, and together they count every entry.
pub proof fn law_class_split(labels: Seq<usize>, class: usize)
    requires
        labels.len() <= usize::MAX,
    ensures
        forall|j: usize| j < labels.len() ==> (#[trigger] members_of(labels, class).contains(j)
            <==> !non_members_of(labels, class).contains(j)),
        members_of(labels, class).len() + non_members_of(labels, class).len() == labels.len(),
{
    lemma_select_members(labels.len(), has_label(labels, class));
    lemma_select_members(labels.len(), lacks_label(labels, class));
    lemma_select_complement(labels.len(), has_label(labels, class), lacks_label(labels, class));
}

/// A class is present in the batch exactly when some entry carries it.
pub proof fn law_present_iff_members(labels: Seq<usize>, class: usize)
    requires
        labels.len() <= usize::MAX,
    ensures
        labels.contains(class) <==> members_of(labels, class).len() > 0,
{
    lemma_select_members(labels.len(), has_label(labels, class));
    let m = members_of(labels, class);
    if labels.contains(class) {
        let k = choose|k: int| 0 <= k < labels.len() && labels[k] == class;
        assert(has_label(labels, class)(k as usize));
        assert(m.contains(k as usize));
    }
    if m.len() > 0 {
        assert(m.contains(m[0]));
        assert(labels[m[0] as int] == class);
    }
}

/// The positive pairs are exactly the pairs `(i, j)` with `i < j` of entries
/// that carry the same label.
pub proof fn law_positive_pair_members(labels: Seq<usize>, i: usize, j: usize)
    requires
        labels.len() <= usize::MAX,
    ensures
        positive_pairs_of(labels).contains((i, j)) <==> (i < j < labels.len() && labels[i as int]
            == labels[j as int]),
{
    lemma_pairs_before_members(labels, labels.len(), i, j);
}

proof fn lemma_pairs_before_members(labels: Seq<usize>, rows: nat, i: usize, j: usize)
    requires
        labels.len() <= usize::MAX,
        rows <= labels.len(),
    ensures
        pairs_before(labels, rows).contains((i, j)) <==> (i < rows && i < j < labels.len()
            && labels[i as int] == labels[j as int]),
    decreases rows,
{
    if rows > 0 {
        let r = (rows - 1) as usize;
        lemma_pairs_before_members(labels, (rows - 1) as nat, i, j);
        lemma_select_members(labels.len(), later_with_label(labels, r));
        let prev = pairs_before(labels, (rows - 1) as nat);
        let sel = select(labels.len(), later_with_label(labels, r));
        let row = pair_row(labels, r, labels.len());
        let all = pairs_before(labels, rows);
        assert(all == prev + row);
        if all.contains((i, j)) {
            let k = choose|k: int| 0 <= k < all.len() && all[k] == (i, j);
            if k < prev.len() {
                assert(prev[k] == (i, j));
            } else {
                assert(row[k - prev.len()] == (i, j));
                assert(sel.contains(sel[k - prev.len()]));
            }
        }
        if i < rows && i < j < labels.len() && labels[i as int] == labels[j as int] {
            if i < r {
                let k = choose|k: int| 0 <= k < prev.len() && prev[k] == (i, j);
                assert(all[k] == (i, j));
            } else {
                assert(later_with_label(labels, r)(j));
                assert(sel.contains(j));
                let k = choose|k: int| 0 <= k < sel.len() && sel[k] == j;
                assert(row[k] == (i, j));
                assert(all[prev.len() + k] == (i, j));
            }
        }
    }
}

} // verus!
