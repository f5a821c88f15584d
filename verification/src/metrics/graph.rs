//! Which neighbours of a seed file in the import graph are seeds themselves.
use vstd::prelude::*;

verus! {

/// The neighbours that are seeds.
pub open spec fn seed_neighbors(seeds: Seq<i64>, neighbors: Seq<i64>) -> Seq<i64> {
    neighbors.filter(|x: i64| seeds.contains(x))
}

/// The neighbours that are not seeds, in order, repeats kept: each receives
/// one share of the seed's score per occurrence.
pub open spec fn receiving_neighbors(seeds: Seq<i64>, neighbors: Seq<i64>) -> Seq<i64> {
    neighbors.filter(|x: i64| !seeds.contains(x))
}

fn contains_id(ids: &Vec<i64>, x: i64) -> (r: bool)
    ensures
        r == ids@.contains(x),
{
    let mut i: usize = 0;
    while i < ids.len()
        invariant
            i <= ids@.len(),
            forall|j: int| 0 <= j < i ==> ids@[j] != x,
        decreases ids@.len() - i,
    {
        if ids[i] == x {
            proof {
                assert(ids@[i as int] == x);
            }
            return true;
        }
        i = i + 1;
    }
    false
}

/// Sorts the neighbours of a seed file (the files it imports and the files
/// that import it) into those that are seeds, which are counted, and those
/// that are not, which are returned in order to receive a share of its score.
pub fn split_neighbors(seeds: &Vec<i64>, neighbors: &Vec<i64>) -> (r: (usize, Vec<i64>))
    ensures
        r.0 == seed_neighbors(seeds@, neighbors@).len(),
        r.1@ == receiving_neighbors(seeds@, neighbors@),
        r.0 + r.1@.len() == neighbors@.len(),
{
    let ghost ss = seeds@;
    let ghost ns = neighbors@;
    let ghost pin = |x: i64| ss.contains(x);
    let ghost pout = |x: i64| !ss.contains(x);
    let mut count: usize = 0;
    let mut out: Vec<i64> = Vec::new();
    let mut i: usize = 0;
    proof {
        assert(ns.take(0).filter(pin) =~= seq![]);
        assert(ns.take(0).filter(pout) =~= seq![]);
    }
    while i < neighbors.len()
        invariant
            i <= ns.len(),
            ns == neighbors@,
            ss == seeds@,
            pin == (|x: i64| ss.contains(x)),
            pout == (|x: i64| !ss.contains(x)),
            count == ns.take(i as int).filter(pin).len(),
            out@ == ns.take(i as int).filter(pout),
            count + out@.len() == i,
        decreases ns.len() - i,
    {
        proof {
            assert(ns.take(i + 1).drop_last() =~= ns.take(i as int));
            assert(ns.take(i + 1).last() == ns[i as int]);
            reveal_with_fuel(Seq::filter, 1);
        }
        let x = neighbors[i];
        if contains_id(seeds, x) {
            count = count + 1;
        } else {
            out.push(x);
        }
        i = i + 1;
    }
    proof {
        assert(ns.take(i as int) =~= ns);
    }
    (count, out)
}

} // verus!
