use vstd::multiset::Multiset;
use vstd::prelude::*;

verus! {

/// The items among the first `n` of `items` whose mark equals `wanted`, in
/// their original order.
pub open spec fn select_prefix<T>(items: Seq<T>, marks: Seq<bool>, wanted: bool, n: int) -> Seq<T>
    decreases n,
{
    if n <= 0 {
        Seq::empty()
    } else {
        select_prefix(items, marks, wanted, n - 1) + if marks[n - 1] == wanted {
            seq![items[n - 1]]
        } else {
            Seq::empty()
        }
    }
}

/// The items of `items` whose mark equals `wanted`, in their original order.
pub open spec fn select<T>(items: Seq<T>, marks: Seq<bool>, wanted: bool) -> Seq<T> {
    select_prefix(items, marks, wanted, items.len() as int)
}

/// `i` is the first position whose mark is set.
pub open spec fn is_first_marked(marks: Seq<bool>, i: int) -> bool {
    &&& 0 <= i < marks.len()
    &&& marks[i]
    &&& forall|j: int| 0 <= j < i ==> !#[trigger] marks[j]
}

/// `(a_key, a_pos)` comes strictly before `(b_key, b_pos)`: by key first and,
/// among equal keys, by the original position.
pub open spec fn ranks_before(a_key: u32, a_pos: int, b_key: u32, b_pos: int) -> bool {
    a_key < b_key || (a_key == b_key && a_pos < b_pos)
}

/// Some position of `perm` maps to `m`.
pub open spec fn takes(perm: Seq<int>, m: int) -> bool {
    exists|k: int| 0 <= k < perm.len() && #[trigger] perm[k] == m
}

/// `sorted` is `items` stably sorted by `keys`: `perm` maps each position of
/// `sorted` to the position in `items` that it came from, every position is
/// taken (and, by the strict increase that follows, none twice), and along
/// `sorted` the pairs (key, original position) strictly increase, so that
/// smaller keys come first and equal keys keep their original order.
pub open spec fn is_stable_sort<T>(items: Seq<T>, keys: Seq<u32>, sorted: Seq<T>, perm: Seq<int>) -> bool {
    &&& sorted.len() == items.len()
    &&& perm.len() == items.len()
    &&& forall|k: int| 0 <= k < perm.len() ==> 0 <= #[trigger] perm[k] < items.len()
    &&& forall|k: int| 0 <= k < perm.len() ==> #[trigger] sorted[k] == items[perm[k]]
    &&& forall|m: int| 0 <= m < items.len() ==> #[trigger] takes(perm, m)
    &&& forall|k1: int, k2: int|
        0 <= k1 < k2 < perm.len() ==> ranks_before(
            keys[#[trigger] perm[k1]],
            perm[k1],
            keys[#[trigger] perm[k2]],
            perm[k2],
        )
}

/// Keeps the items whose mark is `true` and drops the others, keeping the
/// order of the kept ones (the list operation behind clearing empty or
/// broken stacks out of a container).
pub fn keep_marked<T>(items: Vec<T>, keep: &Vec<bool>) -> (kept: Vec<T>)
    requires
        keep@.len() == items@.len(),
    ensures
        kept@ == select(items@, keep@, true),
{
    let ghost all = items@;
    let mut kept: Vec<T> = Vec::new();
    let mut i: usize = 0;
    for item in it: items.into_iter()
        invariant
            it.seq() == all,
            i == it.index(),
            keep@.len() == all.len(),
            kept@ == select_prefix(all, keep@, true, it.index()),
    {
        proof {
            assert(i < keep.len());
        }
        if keep[i] {
            kept.push(item);
        }
        i = i + 1;
    }
    kept
}

/// Splits the items into those whose mark is `true` and those whose mark
/// is `false`, each part in the original order (the list operation behind
/// taking broken stacks out of a container).
pub fn split_marked<T>(items: Vec<T>, marks: &Vec<bool>) -> (parts: (Vec<T>, Vec<T>))
    requires
        marks@.len() == items@.len(),
    ensures
        parts.0@ == select(items@, marks@, true),
        parts.1@ == select(items@, marks@, false),
{
    let ghost all = items@;
    let mut marked: Vec<T> = Vec::new();
    let mut unmarked: Vec<T> = Vec::new();
    let mut i: usize = 0;
    for item in it: items.into_iter()
        invariant
            it.seq() == all,
            i == it.index(),
            marks@.len() == all.len(),
            marked@ == select_prefix(all, marks@, true, it.index()),
            unmarked@ == select_prefix(all, marks@, false, it.index()),
    {
        proof {
            assert(i < marks.len());
        }
        if marks[i] {
            marked.push(item);
        } else {
            unmarked.push(item);
        }
        i = i + 1;
    }
    (marked, unmarked)
}

/// Takes out the first item whose mark is set, if there is one, and
/// returns it; the other items keep their order (the list operation behind
/// dropping a given stack from a container).
pub fn take_first_marked<T>(items: &mut Vec<T>, marks: &Vec<bool>) -> (taken: Option<T>)
    requires
        marks@.len() == old(items)@.len(),
    ensures
        match taken {
            Some(item) => exists|i: int|
                #[trigger] is_first_marked(marks@, i) && item == old(items)@[i]
                    && final(items)@ == old(items)@.remove(i),
            None => (forall|j: int| 0 <= j < marks@.len() ==> !#[trigger] marks@[j])
                && final(items)@ == old(items)@,
        },
{
    let mut i: usize = 0;
    while i < marks.len()
        invariant
            items@ == old(items)@,
            marks@.len() == items@.len(),
            i <= marks@.len(),
            forall|j: int| 0 <= j < i ==> !#[trigger] marks@[j],
        decreases marks@.len() - i,
    {
        if marks[i] {
            let item = items.remove(i);
            assert(is_first_marked(marks@, i as int));
            return Some(item);
        }
        i = i + 1;
    }
    None
}

/// Sorts the items by their keys, smallest key first, keeping the original
/// order among items with equal keys (the list operation behind using up
/// the most worn stacks first).
pub fn sort_by_key_stable<T>(items: Vec<T>, keys: &Vec<u32>) -> (sorted: Vec<T>)
    requires
        keys@.len() == items@.len(),
    ensures
        exists|perm: Seq<int>| is_stable_sort(items@, keys@, sorted@, perm),
{
    let ghost orig = items@;
    let n = items.len();
    let mut v: Vec<(u32, T)> = Vec::new();
    let mut i: usize = 0;
    for item in it: items.into_iter()
        invariant
            it.seq() == orig,
            i == it.index(),
            keys@.len() == orig.len(),
            v@.len() == i,
            forall|k: int| 0 <= k < i ==> (#[trigger] v@[k]).0 == keys@[k] && v@[k].1 == orig[k],
    {
        proof {
            assert(i < keys.len());
        }
        v.push((keys[i], item));
        i = i + 1;
    }
    let ghost mut perm: Seq<int> = Seq::new(n as nat, |k: int| k);
    assert forall|m: int| 0 <= m < n implies #[trigger] takes(perm, m) by {
        assert(perm[m] == m);
    }
    let mut i: usize = 0;
    while i < n
        invariant
            n == orig.len(),
            keys@.len() == n,
            v@.len() == n,
            perm.len() == n,
            i <= n,
            forall|k: int| 0 <= k < n ==> 0 <= #[trigger] perm[k] < n,
            forall|m: int| 0 <= m < n ==> #[trigger] takes(perm, m),
            forall|k: int|
                0 <= k < n ==> (#[trigger] v@[k]).0 == keys@[perm[k]] && v@[k].1 == orig[perm[k]],
            forall|k: int| i <= k < n ==> #[trigger] perm[k] == k,
            forall|k: int| 0 <= k < i ==> #[trigger] perm[k] < i,
            forall|k1: int, k2: int|
                0 <= k1 < k2 < i ==> ranks_before(
                    (#[trigger] v@[k1]).0,
                    perm[k1],
                    (#[trigger] v@[k2]).0,
                    perm[k2],
                ),
        decreases n - i,
    {
        let ghost before = v@;
        let ghost pbefore = perm;
        let e = v.remove(i);
        let key = e.0;
        let mut j: usize = i;
        while j > 0 && v[j - 1].0 > key
            invariant
                j <= i,
                i < n,
                before.len() == n,
                v@ == before.remove(i as int),
                forall|m: int| j <= m < i ==> (#[trigger] v@[m]).0 > key,
            decreases j,
        {
            j = j - 1;
        }
        v.insert(j, e);
        proof {
            perm = pbefore.remove(i as int).insert(j as int, i as int);
            assert(pbefore[i as int] == i);
            assert forall|k: int| 0 <= k < n implies (#[trigger] v@[k]).0 == keys@[perm[k]]
                && v@[k].1 == orig[perm[k]] && 0 <= perm[k] < n by {
                if k < j {
                    assert(v@[k] == before[k]);
                    assert(perm[k] == pbefore[k]);
                } else if k == j {
                    assert(v@[k] == before[i as int]);
                } else if k <= i {
                    assert(v@[k] == before[k - 1]);
                    assert(perm[k] == pbefore[k - 1]);
                } else {
                    assert(v@[k] == before[k]);
                    assert(perm[k] == pbefore[k]);
                }
            }
            assert forall|m: int| 0 <= m < n implies #[trigger] takes(perm, m) by {
                if m == i {
                    assert(perm[j as int] == m);
                } else {
                    assert(takes(pbefore, m));
                    let k0 = choose|k: int| 0 <= k < n && #[trigger] pbefore[k] == m;
                    assert(k0 != i);
                    if k0 < j {
                        assert(perm[k0] == m);
                    } else if k0 < i {
                        assert(perm[k0 + 1] == m);
                    } else {
                        assert(perm[k0] == m);
                    }
                }
            }
            assert forall|k: int| i + 1 <= k < n implies #[trigger] perm[k] == k by {
                assert(perm[k] == pbefore[k]);
            }
            assert forall|k: int| 0 <= k < i + 1 implies #[trigger] perm[k] < i + 1 by {
                if k < j {
                    assert(perm[k] == pbefore[k]);
                } else if k > j {
                    assert(perm[k] == pbefore[k - 1]);
                }
            }
            assert forall|k1: int, k2: int| 0 <= k1 < k2 < i + 1 implies ranks_before(
                (#[trigger] v@[k1]).0,
                perm[k1],
                (#[trigger] v@[k2]).0,
                perm[k2],
            ) by {
                let o1 = if k1 < j { k1 } else { k1 - 1 };
                let o2 = if k2 < j { k2 } else { k2 - 1 };
                if k1 != j && k2 != j {
                    assert(v@[k1] == before[o1]);
                    assert(v@[k2] == before[o2]);
                    assert(perm[k1] == pbefore[o1]);
                    assert(perm[k2] == pbefore[o2]);
                    assert(ranks_before(before[o1].0, pbefore[o1], before[o2].0, pbefore[o2]));
                } else if k2 == j {
                    // k1 < j: an earlier item whose key does not exceed `key`
                    assert(v@[k1] == before[k1]);
                    assert(perm[k1] == pbefore[k1]);
                    assert(pbefore[k1] < i);
                    assert(v@[j as int - 1] == before[j as int - 1]);
                    if k1 < j - 1 {
                        assert(ranks_before(
                            before[k1].0,
                            pbefore[k1],
                            before[j as int - 1].0,
                            pbefore[j as int - 1],
                        ));
                    }
                } else {
                    // k1 == j: a later item whose key exceeds `key`
                    assert(v@[k2] == before[k2 - 1]);
                    assert(v@[k2] == before.remove(i as int)[k2 - 1]);
                }
            }
        }
        i = i + 1;
    }
    let ghost sorted_pairs = v@;
    let mut sorted: Vec<T> = Vec::new();
    let mut k: usize = 0;
    for pair in it: v.into_iter()
        invariant
            it.seq() == sorted_pairs,
            sorted_pairs.len() == n,
            k == it.index(),
            sorted@.len() == k,
            forall|m: int| 0 <= m < k ==> #[trigger] sorted@[m] == sorted_pairs[m].1,
    {
        let (_, item) = pair;
        proof {
            assert(k < n);
        }
        sorted.push(item);
        k = k + 1;
    }
    proof {
        assert forall|m: int| 0 <= m < perm.len() implies #[trigger] sorted@[m] == orig[perm[m]] by {
            assert(sorted@[m] == sorted_pairs[m].1);
        }
        assert forall|k1: int, k2: int| 0 <= k1 < k2 < perm.len() implies ranks_before(
            keys@[#[trigger] perm[k1]],
            perm[k1],
            keys@[#[trigger] perm[k2]],
            perm[k2],
        ) by {
            assert(sorted_pairs[k1].0 == keys@[perm[k1]]);
            assert(sorted_pairs[k2].0 == keys@[perm[k2]]);
            assert(ranks_before(sorted_pairs[k1].0, perm[k1], sorted_pairs[k2].0, perm[k2]));
        }
        assert(is_stable_sort(orig, keys@, sorted@, perm));
    }
    sorted
}

/// Selecting by marks keeps exactly the items whose mark is the wanted one,
/// each once, in their original order: there is a strictly increasing list
/// of positions, covering every position with the wanted mark and no other,
/// whose items are the selection.
pub proof fn lemma_select_picks_marked_positions<T>(items: Seq<T>, marks: Seq<bool>, wanted: bool)
    requires
        marks.len() == items.len(),
    ensures
        exists|pos: Seq<int>|
            {
                &&& pos.len() == select(items, marks, wanted).len()
                &&& forall|k: int|
                    0 <= k < pos.len() ==> 0 <= #[trigger] pos[k] < items.len() && marks[pos[k]]
                        == wanted && select(items, marks, wanted)[k] == items[pos[k]]
                &&& forall|k1: int, k2: int|
                    0 <= k1 < k2 < pos.len() ==> #[trigger] pos[k1] < #[trigger] pos[k2]
                &&& forall|j: int|
                    0 <= j < items.len() && marks[j] == wanted ==> #[trigger] pos.contains(j)
            },
{
    let pos = lemma_select_prefix_positions(items, marks, wanted, items.len() as int);
}

proof fn lemma_select_prefix_positions<T>(items: Seq<T>, marks: Seq<bool>, wanted: bool, n: int) -> (pos: Seq<int>)
    requires
        marks.len() == items.len(),
        0 <= n <= items.len(),
    ensures
        pos.len() == select_prefix(items, marks, wanted, n).len(),
        forall|k: int|
            0 <= k < pos.len() ==> 0 <= #[trigger] pos[k] < n && marks[pos[k]] == wanted
                && select_prefix(items, marks, wanted, n)[k] == items[pos[k]],
        forall|k1: int, k2: int| 0 <= k1 < k2 < pos.len() ==> #[trigger] pos[k1] < #[trigger] pos[k2],
        forall|j: int| 0 <= j < n && marks[j] == wanted ==> #[trigger] pos.contains(j),
    decreases n,
{
    if n == 0 {
        Seq::empty()
    } else {
        let p = lemma_select_prefix_positions(items, marks, wanted, n - 1);
        let sp = select_prefix(items, marks, wanted, n - 1);
        let s = select_prefix(items, marks, wanted, n);
        if marks[n - 1] == wanted {
            let q = p.push(n - 1);
            assert(s == sp.push(items[n - 1]));
            assert forall|k: int| 0 <= k < q.len() implies 0 <= #[trigger] q[k] < n && marks[q[k]]
                == wanted && s[k] == items[q[k]] by {
                if k < p.len() {
                    assert(q[k] == p[k]);
                    assert(s[k] == sp[k]);
                }
            }
            assert forall|j: int| 0 <= j < n && marks[j] == wanted implies #[trigger] q.contains(j) by {
                if j < n - 1 {
                    assert(p.contains(j));
                    let k = choose|k: int| 0 <= k < p.len() && p[k] == j;
                    assert(q[k] == j);
                } else {
                    assert(q[p.len() as int] == j);
                }
            }
            assert forall|k1: int, k2: int| 0 <= k1 < k2 < q.len() implies #[trigger] q[k1] < #[trigger] q[k2] by {
                assert(q[k1] == p[k1]);
                if k2 < p.len() {
                    assert(q[k2] == p[k2]);
                }
            }
            q
        } else {
            assert(s == sp);
            assert forall|j: int| 0 <= j < n && marks[j] == wanted implies #[trigger] p.contains(j) by {
                assert(j < n - 1);
            }
            p
        }
    }
}

/// Partitioning by marks loses and duplicates nothing: the two parts
/// together hold exactly the items of the list.
pub proof fn lemma_split_keeps_every_item<T>(items: Seq<T>, marks: Seq<bool>)
    requires
        marks.len() == items.len(),
    ensures
        select(items, marks, true).to_multiset().add(select(items, marks, false).to_multiset())
            == items.to_multiset(),
        select(items, marks, true).len() + select(items, marks, false).len() == items.len(),
{
    lemma_split_prefix(items, marks, items.len() as int);
    assert(items.take(items.len() as int) == items);
}

proof fn lemma_split_prefix<T>(items: Seq<T>, marks: Seq<bool>, n: int)
    requires
        marks.len() == items.len(),
        0 <= n <= items.len(),
    ensures
        select_prefix(items, marks, true, n).to_multiset().add(
            select_prefix(items, marks, false, n).to_multiset(),
        ) == items.take(n).to_multiset(),
        select_prefix(items, marks, true, n).len() + select_prefix(items, marks, false, n).len()
            == n,
    decreases n,
{
    broadcast use vstd::seq_lib::group_to_multiset_ensures;

    if n == 0 {
        assert(items.take(0) == Seq::<T>::empty());
        assert(select_prefix(items, marks, true, 0).to_multiset() =~= Multiset::empty());
        assert(select_prefix(items, marks, false, 0).to_multiset() =~= Multiset::empty());
        assert(items.take(0).to_multiset() =~= Multiset::empty());
    } else {
        lemma_split_prefix(items, marks, n - 1);
        let x = items[n - 1];
        assert(items.take(n) == items.take(n - 1).push(x));
        let t = select_prefix(items, marks, true, n - 1);
        let f = select_prefix(items, marks, false, n - 1);
        if marks[n - 1] {
            assert(select_prefix(items, marks, true, n) == t.push(x));
            assert(select_prefix(items, marks, false, n) == f);
            assert(t.push(x).to_multiset() == t.to_multiset().insert(x));
        } else {
            assert(select_prefix(items, marks, false, n) == f.push(x));
            assert(select_prefix(items, marks, true, n) == t);
            assert(f.push(x).to_multiset() == f.to_multiset().insert(x));
        }
        assert(items.take(n).to_multiset() == items.take(n - 1).to_multiset().insert(x));
        assert(select_prefix(items, marks, true, n).to_multiset().add(
            select_prefix(items, marks, false, n).to_multiset(),
        ) =~= items.take(n).to_multiset());
    }
}

/// The first marked position is the least of the marked positions: it is
/// marked, and no marked position comes before it; so there is at most one.
pub proof fn lemma_first_marked_is_least(marks: Seq<bool>, i: int)
    ensures
        is_first_marked(marks, i) <==> (0 <= i < marks.len() && marks[i] && forall|j: int|
            0 <= j < marks.len() && #[trigger] marks[j] ==> i <= j),
{
    if 0 <= i < marks.len() && marks[i] && (forall|j: int|
        0 <= j < marks.len() && #[trigger] marks[j] ==> i <= j) {
        assert forall|j: int| 0 <= j < i implies !#[trigger] marks[j] by {
            if marks[j] {
                assert(i <= j);
            }
        }
    }
}

/// Along a stable sort the keys never decrease, items with equal keys keep
/// their original order, and no original position is used twice.
pub proof fn lemma_stable_sort_orders<T>(items: Seq<T>, keys: Seq<u32>, sorted: Seq<T>, perm: Seq<int>)
    requires
        is_stable_sort(items, keys, sorted, perm),
    ensures
        forall|k1: int, k2: int|
            0 <= k1 < k2 < perm.len() ==> keys[#[trigger] perm[k1]] <= keys[#[trigger] perm[k2]],
        forall|k1: int, k2: int|
            0 <= k1 < k2 < perm.len() && keys[perm[k1]] == keys[perm[k2]] ==> #[trigger] perm[k1]
                < #[trigger] perm[k2],
        forall|k1: int, k2: int|
            0 <= k1 < perm.len() && 0 <= k2 < perm.len() && k1 != k2 ==> #[trigger] perm[k1]
                != #[trigger] perm[k2],
{
    assert forall|k1: int, k2: int|
        0 <= k1 < perm.len() && 0 <= k2 < perm.len() && k1 != k2 implies #[trigger] perm[k1]
            != #[trigger] perm[k2] by {
        if k1 < k2 {
            assert(ranks_before(keys[perm[k1]], perm[k1], keys[perm[k2]], perm[k2]));
        } else {
            assert(ranks_before(keys[perm[k2]], perm[k2], keys[perm[k1]], perm[k1]));
        }
    }
}

} // verus!
