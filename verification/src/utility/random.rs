use vstd::prelude::*;

verus! {

/// The ways a random selection can come out empty or be refused.
#[derive(Debug, PartialEq, Eq, Clone, Copy, Structural)]
pub enum RandomError {
    /// Every draw of the list missed: a legitimate outcome of the lottery.
    NoSelectionMade,
    /// The weights cannot define a selection (empty, all zero, negative).
    InvalidWeights,
}

/// The positions, in increasing order, of the first `n` draws that hit.
pub open spec fn hits_prefix(draws: Seq<bool>, n: int) -> Seq<usize>
    decreases n,
{
    if n <= 0 {
        Seq::empty()
    } else {
        hits_prefix(draws, n - 1) + if draws[n - 1] {
            seq![(n - 1) as usize]
        } else {
            Seq::empty()
        }
    }
}

/// The positions of all draws that hit, in increasing order.
pub open spec fn hits(draws: Seq<bool>) -> Seq<usize> {
    hits_prefix(draws, draws.len() as int)
}

/// `i` is the position of the first draw that hit.
pub open spec fn first_hit_at(draws: Seq<bool>, i: int) -> bool {
    &&& 0 <= i < draws.len()
    &&& draws[i]
    &&& forall|j: int| 0 <= j < i ==> !#[trigger] draws[j]
}

/// Given the outcome of one independent draw per entry of a list, in list
/// order, picks the first entry whose draw hit (poison is checked before
/// paralysis, say); when every draw missed, there is no selection.
pub fn first_hit(draws: &[bool]) -> (picked: Result<usize, RandomError>)
    ensures
        match picked {
            Ok(i) => first_hit_at(draws@, i as int),
            Err(e) => e == RandomError::NoSelectionMade && forall|j: int|
                0 <= j < draws@.len() ==> !#[trigger] draws@[j],
        },
{
    let mut i: usize = 0;
    while i < draws.len()
        invariant
            i <= draws@.len(),
            forall|j: int| 0 <= j < i ==> !#[trigger] draws@[j],
        decreases draws@.len() - i,
    {
        if draws[i] {
            return Ok(i);
        }
        i = i + 1;
    }
    Err(RandomError::NoSelectionMade)
}

/// Given the outcome of one independent draw per entry of a list, in list
/// order, picks every entry whose draw hit (several drops from one enemy,
/// say), in list order; when every draw missed, there is no selection.
pub fn all_hits(draws: &[bool]) -> (picked: Result<Vec<usize>, RandomError>)
    ensures
        match picked {
            Ok(v) => v@ == hits(draws@) && v@.len() > 0,
            Err(e) => e == RandomError::NoSelectionMade && hits(draws@).len() == 0,
        },
{
    let mut picked: Vec<usize> = Vec::new();
    let mut i: usize = 0;
    while i < draws.len()
        invariant
            i <= draws@.len(),
            picked@ == hits_prefix(draws@, i as int),
        decreases draws@.len() - i,
    {
        if draws[i] {
            picked.push(i);
        }
        i = i + 1;
    }
    if picked.len() == 0 {
        Err(RandomError::NoSelectionMade)
    } else {
        Ok(picked)
    }
}

/// Picking the first hit and picking all hits agree: both come out empty
/// exactly when no draw hit, and otherwise the first hit heads the list of
/// all hits, which holds exactly the positions of the hits.
pub proof fn lemma_first_hit_heads_all_hits(draws: Seq<bool>)
    requires
        draws.len() <= usize::MAX,
    ensures
        hits(draws).len() == 0 <==> forall|j: int| 0 <= j < draws.len() ==> !#[trigger] draws[j],
        forall|i: int| #[trigger] first_hit_at(draws, i) ==> hits(draws)[0] == i,
        forall|k: int|
            0 <= k < hits(draws).len() ==> draws[#[trigger] hits(draws)[k] as int],
{
    lemma_hits_prefix(draws, draws.len() as int);
}

proof fn lemma_hits_prefix(draws: Seq<bool>, n: int)
    requires
        0 <= n <= draws.len(),
        draws.len() <= usize::MAX,
    ensures
        hits_prefix(draws, n).len() == 0 <==> forall|j: int| 0 <= j < n ==> !#[trigger] draws[j],
        forall|i: int| 0 <= i < n && #[trigger] first_hit_at(draws, i) ==> hits_prefix(draws, n)[0] == i,
        forall|k: int|
            0 <= k < hits_prefix(draws, n).len() ==> {
                &&& 0 <= #[trigger] hits_prefix(draws, n)[k] < n
                &&& draws[hits_prefix(draws, n)[k] as int]
            },
    decreases n,
{
    if n > 0 {
        lemma_hits_prefix(draws, n - 1);
        let p = hits_prefix(draws, n - 1);
        if draws[n - 1] {
            assert(hits_prefix(draws, n) == p.push((n - 1) as usize));
        } else {
            assert(hits_prefix(draws, n) == p);
        }
        assert forall|i: int| 0 <= i < n && #[trigger] first_hit_at(draws, i) implies hits_prefix(
            draws,
            n,
        )[0] == i by {
            if i < n - 1 {
                assert(draws[i]);
                assert(p.len() > 0);
                assert(p[0] == i);
                assert(hits_prefix(draws, n)[0] == p[0]);
            } else {
                assert forall|j: int| 0 <= j < n - 1 implies !#[trigger] draws[j] by {
                    assert(j < i);
                }
                assert(p.len() == 0);
                assert(hits_prefix(draws, n) =~= seq![(n - 1) as usize]);
            }
        }
        assert forall|k: int| 0 <= k < hits_prefix(draws, n).len() implies {
            &&& 0 <= #[trigger] hits_prefix(draws, n)[k] < n
            &&& draws[hits_prefix(draws, n)[k] as int]
        } by {
            if k < p.len() {
                assert(hits_prefix(draws, n)[k] == p[k]);
            }
        }
    }
}


/// Every draw that hit is listed among all hits, each listed position is a
/// draw that hit, and the positions increase strictly: the list of all hits
/// is exactly the positions of the hits, in list order.
pub proof fn lemma_all_hits_lists_every_hit(draws: Seq<bool>)
    requires
        draws.len() <= usize::MAX,
    ensures
        forall|j: int| 0 <= j < draws.len() && #[trigger] draws[j] ==> hits(draws).contains(j as usize),
        forall|k: int|
            0 <= k < hits(draws).len() ==> {
                &&& (#[trigger] hits(draws)[k]) < draws.len()
                &&& draws[hits(draws)[k] as int]
            },
        forall|k1: int, k2: int|
            0 <= k1 < k2 < hits(draws).len() ==> #[trigger] hits(draws)[k1] < #[trigger] hits(draws)[k2],
{
    lemma_hits_listed(draws, draws.len() as int);
}

proof fn lemma_hits_listed(draws: Seq<bool>, n: int)
    requires
        0 <= n <= draws.len(),
        draws.len() <= usize::MAX,
    ensures
        forall|j: int| 0 <= j < n && #[trigger] draws[j] ==> hits_prefix(draws, n).contains(j as usize),
        forall|k: int|
            0 <= k < hits_prefix(draws, n).len() ==> {
                &&& (#[trigger] hits_prefix(draws, n)[k]) < n
                &&& draws[hits_prefix(draws, n)[k] as int]
            },
        forall|k1: int, k2: int|
            0 <= k1 < k2 < hits_prefix(draws, n).len() ==> #[trigger] hits_prefix(draws, n)[k1]
                < #[trigger] hits_prefix(draws, n)[k2],
    decreases n,
{
    if n > 0 {
        lemma_hits_listed(draws, n - 1);
        let p = hits_prefix(draws, n - 1);
        let q = hits_prefix(draws, n);
        if draws[n - 1] {
            assert(q == p.push((n - 1) as usize));
            assert(q[p.len() as int] == (n - 1) as usize);
        } else {
            assert(q == p);
        }
        assert forall|j: int| 0 <= j < n && #[trigger] draws[j] implies q.contains(j as usize) by {
            if j < n - 1 {
                assert(p.contains(j as usize));
                let k = choose|k: int| 0 <= k < p.len() && p[k] == j as usize;
                assert(q[k] == j as usize);
            } else {
                assert(q[p.len() as int] == j as usize);
            }
        }
        assert forall|k: int| 0 <= k < q.len() implies {
            &&& (#[trigger] q[k]) < n
            &&& draws[q[k] as int]
        } by {
            if k < p.len() {
                assert(q[k] == p[k]);
            }
        }
        assert forall|k1: int, k2: int| 0 <= k1 < k2 < q.len() implies #[trigger] q[k1] < #[trigger] q[k2] by {
            if k2 < p.len() {
                assert(q[k1] == p[k1] && q[k2] == p[k2]);
            } else {
                assert(q[k1] == p[k1]);
            }
        }
    }
}

/// The first hit is the least position of a hit: it is a hit and every hit
/// comes at or after it.
pub proof fn lemma_first_hit_is_least(draws: Seq<bool>, i: int)
    ensures
        first_hit_at(draws, i) <==> (0 <= i < draws.len() && draws[i] && forall|j: int|
            0 <= j < draws.len() && #[trigger] draws[j] ==> i <= j),
{
    if 0 <= i < draws.len() && draws[i] && (forall|j: int|
        0 <= j < draws.len() && #[trigger] draws[j] ==> i <= j) {
        assert forall|j: int| 0 <= j < i implies !#[trigger] draws[j] by {
            if draws[j] {
                assert(i <= j);
            }
        }
    }
}

} // verus!
