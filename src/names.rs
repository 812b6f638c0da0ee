use std::collections::HashMap;
use vstd::prelude::*;

use crate::registry::IdRegistry;

verus! {

broadcast use vstd::std_specs::hash::group_hash_axioms;

/// The display name of `code` in the (code, name) pairs `airports`: the last
/// pair with that code wins, as when the pairs are inserted into a map in
/// order.
pub open spec fn lookup_name(airports: Seq<(String, String)>, code: Seq<char>) -> Option<
    Seq<char>,
>
    decreases airports.len(),
{
    if airports.len() == 0 {
        None
    } else if airports.last().0@ == code {
        Some(airports.last().1@)
    } else {
        lookup_name(airports.drop_last(), code)
    }
}

/// The text of an optional label.
pub open spec fn label_view(label: Option<String>) -> Option<Seq<char>> {
    match label {
        Some(s) => Some(s@),
        None => None,
    }
}

/// Node `i` takes part in the ranking: it has a label and a degree.
pub open spec fn eligible(
    degrees: Map<usize, usize>,
    labels: Seq<Option<String>>,
    i: usize,
) -> bool {
    &&& (i as int) < labels.len()
    &&& labels[i as int] is Some
    &&& degrees.contains_key(i)
}

/// `a` comes before `b` in the ranking: a higher degree first, and on equal
/// degrees the smaller id first.
pub open spec fn ranks_before(degrees: Map<usize, usize>, a: usize, b: usize) -> bool {
    degrees[a] > degrees[b] || (degrees[a] == degrees[b] && a < b)
}

/// `ids` are the first `k` eligible nodes in ranking order (all of them,
/// when there are fewer than `k`).
pub open spec fn is_top_ranking(
    degrees: Map<usize, usize>,
    labels: Seq<Option<String>>,
    k: nat,
    ids: Seq<usize>,
) -> bool {
    &&& ids.len() <= k
    &&& forall|j: int| 0 <= j < ids.len() ==> eligible(degrees, labels, #[trigger] ids[j])
    &&& forall|a: int, b: int|
        0 <= a < b < ids.len() ==> ranks_before(degrees, #[trigger] ids[a], #[trigger] ids[b])
    &&& forall|i: usize|
        eligible(degrees, labels, i) && !ids.contains(i) ==> ids.len() == k && forall|j: int|
            0 <= j < ids.len() ==> ranks_before(degrees, #[trigger] ids[j], i)
}

/// The display name of each id of `registry`, by id: `None` where the
/// airport's code has no entry in `airports`.
pub fn map_integers_to_airport_names(
    registry: &IdRegistry,
    airports: &Vec<(String, String)>,
) -> (r: Vec<Option<String>>)
    ensures
        r@.len() == registry@.len(),
        forall|i: int|
            0 <= i < r@.len() ==> label_view(#[trigger] r@[i]) == lookup_name(
                airports@,
                registry@[i],
            ),
{
    let mut r: Vec<Option<String>> = Vec::new();
    let mut id: usize = 0;
    while id < registry.len()
        invariant
            0 <= id <= registry@.len(),
            r@.len() == id,
            forall|i: int|
                0 <= i < id ==> label_view(#[trigger] r@[i]) == lookup_name(
                    airports@,
                    registry@[i],
                ),
        decreases registry@.len() - id,
    {
        let code = registry.key_of(id).unwrap();
        let mut found: Option<String> = None;
        let mut j: usize = airports.len();
        assert(airports@.take(j as int) == airports@);
        while j > 0 && found.is_none()
            invariant
                0 <= j <= airports@.len(),
                code@ == registry@[id as int],
                found is None ==> lookup_name(airports@, code@) == lookup_name(
                    airports@.take(j as int),
                    code@,
                ),
                found is Some ==> label_view(found) == lookup_name(airports@, code@),
            decreases j,
        {
            proof {
                assert(airports@.take(j as int).drop_last() == airports@.take(j - 1));
            }
            if airports[j - 1].0 == *code {
                found = Some(airports[j - 1].1.clone());
            }
            j = j - 1;
        }
        proof {
            if found is None {
                assert(airports@.take(0) == Seq::<(String, String)>::empty());
            }
        }
        r.push(found);
        proof {
            assert forall|i: int| 0 <= i < id + 1 implies label_view(#[trigger] r@[i])
                == lookup_name(airports@, registry@[i]) by {
                if i < id {
                    assert(r@[i] == r@.drop_last()[i]);
                }
            }
        }
        id = id + 1;
    }
    r
}

/// The ids of the first `k` labelled nodes by degree, highest first; equal
/// degrees are ordered by ascending id.
pub fn top_ranked_ids(
    centrality: &HashMap<usize, usize>,
    labels: &Vec<Option<String>>,
    k: usize,
) -> (r: Vec<usize>)
    ensures
        is_top_ranking(centrality@, labels@, k as nat, r@),
{
    let mut r: Vec<usize> = Vec::new();
    let mut last_id: usize = 0;
    let mut last_degree: usize = 0;
    let mut exhausted = false;
    while r.len() < k && !exhausted
        invariant
            r@.len() <= k,
            r@.len() > 0 ==> last_id == r@.last() && last_degree == centrality@[last_id],
            forall|j: int| 0 <= j < r@.len() ==> eligible(centrality@, labels@, #[trigger] r@[j]),
            forall|a: int, b: int|
                0 <= a < b < r@.len() ==> ranks_before(
                    centrality@,
                    #[trigger] r@[a],
                    #[trigger] r@[b],
                ),
            forall|i: usize|
                eligible(centrality@, labels@, i) && !r@.contains(i) ==> !exhausted
                    && forall|j: int|
                    0 <= j < r@.len() ==> ranks_before(centrality@, #[trigger] r@[j], i),
        decreases k - r@.len() + (if exhausted { 0int } else { 1int }),
    {
        let mut best: Option<usize> = None;
        let mut best_degree: usize = 0;
        let mut i: usize = 0;
        while i < labels.len()
            invariant
                0 <= i <= labels@.len(),
                r@.len() > 0 ==> last_id == r@.last() && last_degree == centrality@[last_id],
                best matches Some(b) ==> {
                    &&& b < i
                    &&& eligible(centrality@, labels@, b)
                    &&& best_degree == centrality@[b]
                    &&& (r@.len() > 0 ==> ranks_before(centrality@, last_id, b))
                    &&& forall|j: usize|
                        j < i && #[trigger] eligible(centrality@, labels@, j) && (r@.len() > 0
                            ==> ranks_before(centrality@, last_id, j)) ==> j == b
                            || ranks_before(centrality@, b, j)
                },
                best is None ==> forall|j: usize|
                    j < i && #[trigger] eligible(centrality@, labels@, j) ==> r@.len() > 0
                        && !ranks_before(centrality@, last_id, j),
            decreases labels@.len() - i,
        {
            if labels[i].is_some() {
                match centrality.get(&i) {
                    Some(d) => {
                        assert(centrality@.contains_key(i) && centrality@[i] == *d);
                        let after_last = r.len() == 0 || last_degree > *d || (last_degree == *d
                            && last_id < i);
                        let better = match best {
                            None => true,
                            Some(b) => *d > best_degree || (*d == best_degree && i < b),
                        };
                        if after_last && better {
                            best = Some(i);
                            best_degree = *d;
                        }
                    },
                    None => {},
                }
            }
            i = i + 1;
        }
        match best {
            Some(b) => {
                let ghost old_r = r@;
                proof {
                    assert forall|j: int| 0 <= j < old_r.len() implies #[trigger] old_r[j] != b
                        && ranks_before(centrality@, old_r[j], b) by {
                        if j < old_r.len() - 1 {
                            assert(ranks_before(centrality@, old_r[j], old_r[old_r.len() - 1]));
                        }
                    }
                }
                r.push(b);
                last_id = b;
                last_degree = best_degree;
                proof {
                    assert forall|a: int, c: int| 0 <= a < c < r@.len() implies ranks_before(
                        centrality@,
                        #[trigger] r@[a],
                        #[trigger] r@[c],
                    ) by {
                        if c < r@.len() - 1 {
                            assert(r@[a] == old_r[a] && r@[c] == old_r[c]);
                        } else {
                            assert(r@[a] == old_r[a]);
                        }
                    }
                    assert forall|x: usize|
                        eligible(centrality@, labels@, x) && !r@.contains(x) implies forall|j: int|
                        0 <= j < r@.len() ==> ranks_before(centrality@, #[trigger] r@[j], x) by {
                        assert(!old_r.contains(x)) by {
                            if old_r.contains(x) {
                                let w = choose|w: int| 0 <= w < old_r.len() && old_r[w] == x;
                                assert(r@[w] == x);
                            }
                        }
                        assert(x != b) by {
                            assert(r@[r@.len() - 1] == b);
                        }
                        if old_r.len() > 0 {
                            assert(ranks_before(centrality@, old_r[old_r.len() - 1], x));
                        }
                        assert(ranks_before(centrality@, b, x));
                        assert forall|j: int| 0 <= j < r@.len() implies ranks_before(
                            centrality@,
                            #[trigger] r@[j],
                            x,
                        ) by {
                            if j < r@.len() - 1 {
                                assert(r@[j] == old_r[j]);
                            }
                        }
                    }
                }
            },
            None => {
                proof {
                    assert forall|x: usize|
                        eligible(centrality@, labels@, x) && !r@.contains(x) implies false by {
                        assert(r@.len() > 0);
                        assert(ranks_before(centrality@, r@[r@.len() - 1], x));
                    }
                }
                exhausted = true;
            },
        }
    }
    r
}

/// The first `k` labelled nodes by degree, highest first, as
/// (display name, degree) pairs; equal degrees are ordered by ascending id.
pub fn rank_airports(
    centrality: &HashMap<usize, usize>,
    labels: &Vec<Option<String>>,
    k: usize,
) -> (r: Vec<(String, usize)>)
    ensures
        exists|ids: Seq<usize>|
            {
                &&& is_top_ranking(centrality@, labels@, k as nat, ids)
                &&& #[trigger] ids.len() == r@.len()
                &&& forall|j: int|
                    0 <= j < ids.len() ==> label_view(labels@[ids[j] as int]) == Some(
                        (#[trigger] r@[j]).0@,
                    ) && r@[j].1 == centrality@[ids[j]]
            },
        forall|a: int, b: int|
            0 <= a < b < r@.len() ==> (#[trigger] r@[a]).1 >= (#[trigger] r@[b]).1,
{
    let ids = top_ranked_ids(centrality, labels, k);
    let mut r: Vec<(String, usize)> = Vec::new();
    let mut j: usize = 0;
    while j < ids.len()
        invariant
            0 <= j <= ids@.len(),
            is_top_ranking(centrality@, labels@, k as nat, ids@),
            r@.len() == j,
            forall|t: int|
                0 <= t < j ==> label_view(labels@[ids@[t] as int]) == Some((#[trigger] r@[t]).0@)
                    && r@[t].1 == centrality@[ids@[t]],
        decreases ids@.len() - j,
    {
        let id = ids[j];
        assert(eligible(centrality@, labels@, ids@[j as int]));
        let name = labels[id].as_ref().unwrap().clone();
        let degree = *centrality.get(&id).unwrap();
        r.push((name, degree));
        proof {
            assert forall|t: int| 0 <= t < j + 1 implies label_view(labels@[ids@[t] as int])
                == Some((#[trigger] r@[t]).0@) && r@[t].1 == centrality@[ids@[t]] by {
                if t < j {
                    assert(r@[t] == r@.drop_last()[t]);
                }
            }
        }
        j = j + 1;
    }
    proof {
        assert forall|a: int, b: int| 0 <= a < b < r@.len() implies (#[trigger] r@[a]).1 >= (
        #[trigger] r@[b]).1 by {
            assert(ranks_before(centrality@, ids@[a], ids@[b]));
        }
    }
    r
}

} // verus!
