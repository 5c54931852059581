//! Hits, their order by distance, and the choice of the nearest.
use vstd::prelude::*;
use crate::scalar::Scalar;

verus! {

/// A ray's hit on one shape of a scene: which shape, by its index, and the
/// distance along the ray. Hits are ordered by distance alone.
#[derive(Clone, Copy, Debug)]
pub struct Intersection {
    pub shape: usize,
    pub distance: Scalar,
}

impl Intersection {
    /// Whether this hit lies strictly before the other on the ray.
    pub open spec fn nearer(self, other: Intersection) -> bool {
        self.distance.less(other.distance)
    }

    pub fn new(shape: usize, distance: Scalar) -> (hit: Intersection)
        ensures
            hit.shape == shape,
            hit.distance == distance,
    {
        Intersection { shape, distance }
    }

    pub fn is_nearer_than(&self, other: &Intersection) -> (r: bool)
        ensures
            r == self.nearer(*other),
    {
        self.distance.lt(other.distance)
    }
}

/// The nearest of the hits so far and one more candidate. The candidate takes
/// the place only where it is strictly nearer: of two hits at the same
/// distance the earlier one stays.
pub open spec fn closer(best: Option<Intersection>, candidate: Option<Intersection>) -> Option<
    Intersection,
> {
    match (best, candidate) {
        (None, _) => candidate,
        (Some(_), None) => best,
        (Some(b), Some(c)) => if c.nearer(b) {
            candidate
        } else {
            best
        },
    }
}

/// The nearest hit of a row of candidates, taken from the first to the last.
pub open spec fn nearest_of(hits: Seq<Option<Intersection>>) -> Option<Intersection>
    decreases hits.len(),
{
    if hits.len() == 0 {
        None
    } else {
        closer(nearest_of(hits.drop_last()), hits.last())
    }
}

/// Whether any candidate is a hit.
pub open spec fn any_of(hits: Seq<Option<Intersection>>) -> bool {
    exists|i: int| 0 <= i < hits.len() && (#[trigger] hits[i]).is_some()
}

/// One step of the choice: the nearest so far against one more candidate.
pub fn choose_closer(best: Option<Intersection>, candidate: Option<Intersection>) -> (r: Option<
    Intersection,
>)
    ensures
        r == closer(best, candidate),
{
    match best {
        None => candidate,
        Some(b) => match candidate {
            None => best,
            Some(c) => if c.is_nearer_than(&b) {
                candidate
            } else {
                best
            },
        },
    }
}

/// The nearest of the candidates, `None` where none is a hit.
pub fn nearest_intersection(hits: &Vec<Option<Intersection>>) -> (best: Option<Intersection>)
    ensures
        best == nearest_of(hits@),
{
    let mut best: Option<Intersection> = None;
    let mut i: usize = 0;
    while i < hits.len()
        invariant
            i <= hits.len(),
            best == nearest_of(hits@.take(i as int)),
        decreases hits.len() - i,
    {
        proof {
            assert(hits@.take(i + 1).drop_last() =~= hits@.take(i as int));
        }
        best = choose_closer(best, hits[i]);
        i += 1;
    }
    proof {
        assert(hits@.take(i as int) =~= hits@);
    }
    best
}

/// Whether any candidate is a hit, found at the first one that is.
pub fn any_intersection(hits: &Vec<Option<Intersection>>) -> (found: bool)
    ensures
        found == any_of(hits@),
{
    let mut i: usize = 0;
    while i < hits.len()
        invariant
            i <= hits.len(),
            forall|j: int| 0 <= j < i ==> (#[trigger] hits@[j]).is_none(),
        decreases hits.len() - i,
    {
        if hits[i].is_some() {
            return true;
        }
        i += 1;
    }
    false
}

/// The nearest hit is one of the candidates.
pub proof fn lemma_nearest_is_a_candidate(hits: Seq<Option<Intersection>>)
    ensures
        nearest_of(hits).is_some() ==> exists|i: int|
            0 <= i < hits.len() && #[trigger] hits[i] == nearest_of(hits),
    decreases hits.len(),
{
    if hits.len() > 0 {
        let front = hits.drop_last();
        lemma_nearest_is_a_candidate(front);
        if nearest_of(hits).is_some() {
            if nearest_of(hits) == hits.last() {
                assert(hits[hits.len() - 1] == nearest_of(hits));
            } else {
                let i = choose|i: int| 0 <= i < front.len() && #[trigger] front[i] == nearest_of(front);
                assert(hits[i] == nearest_of(hits));
            }
        }
    }
}

/// The two queries agree: there is a nearest hit exactly where any candidate
/// is a hit.
pub proof fn lemma_nearest_agrees_with_any(hits: Seq<Option<Intersection>>)
    ensures
        nearest_of(hits).is_some() == any_of(hits),
    decreases hits.len(),
{
    if hits.len() > 0 {
        let front = hits.drop_last();
        lemma_nearest_agrees_with_any(front);
        if any_of(front) {
            let i = choose|i: int| 0 <= i < front.len() && (#[trigger] front[i]).is_some();
            assert(hits[i].is_some());
        }
        if hits.last().is_some() {
            assert(hits[hits.len() - 1].is_some());
        }
        if any_of(hits) {
            let i = choose|i: int| 0 <= i < hits.len() && (#[trigger] hits[i]).is_some();
            if i < front.len() {
                assert(front[i].is_some());
            }
        }
    }
}

/// No candidate lies strictly before the nearest hit.
pub proof fn lemma_nothing_is_nearer(hits: Seq<Option<Intersection>>, i: int)
    requires
        0 <= i < hits.len(),
        hits[i].is_some(),
    ensures
        nearest_of(hits).is_some(),
        !hits[i].unwrap().nearer(nearest_of(hits).unwrap()),
    decreases hits.len(),
{
    let front = hits.drop_last();
    if i < front.len() {
        lemma_nothing_is_nearer(front, i);
    }
}

/// Whether every hit among the candidates has a number for its distance.
pub open spec fn distances_are_numbers(hits: Seq<Option<Intersection>>) -> bool {
    forall|i: int|
        0 <= i < hits.len() && (#[trigger] hits[i]).is_some() ==> !hits[i].unwrap().distance.is_nan()
}

/// The index of the candidate that is chosen: the first of the least
/// distance, where there is a hit and all distances are numbers.
pub open spec fn is_first_of_least_distance(hits: Seq<Option<Intersection>>, at: int) -> bool {
    &&& 0 <= at < hits.len()
    &&& hits[at].is_some()
    &&& forall|j: int|
        0 <= j < hits.len() && (#[trigger] hits[j]).is_some() ==> {
            &&& hits[at].unwrap().distance.value() <= hits[j].unwrap().distance.value()
            &&& j < at ==> hits[at].unwrap().distance.value() < hits[j].unwrap().distance.value()
        }
}

/// Ties go to the first found: where all distances are numbers and `at` is
/// the first candidate of the least distance, the nearest hit is that
/// candidate.
pub proof fn lemma_first_of_least_distance_wins(hits: Seq<Option<Intersection>>, at: int)
    requires
        distances_are_numbers(hits),
        is_first_of_least_distance(hits, at),
    ensures
        nearest_of(hits) == hits[at],
    decreases hits.len(),
{
    let front = hits.drop_last();
    if at < front.len() {
        assert(distances_are_numbers(front)) by {
            assert forall|i: int| 0 <= i < front.len() && (#[trigger] front[i]).is_some() implies !front[i].unwrap().distance.is_nan() by {
                assert(hits[i].is_some());
            }
        }
        assert(is_first_of_least_distance(front, at)) by {
            assert forall|j: int| 0 <= j < front.len() && (#[trigger] front[j]).is_some() implies {
                &&& front[at].unwrap().distance.value() <= front[j].unwrap().distance.value()
                &&& j < at ==> front[at].unwrap().distance.value() < front[j].unwrap().distance.value()
            } by {
                assert(hits[j].is_some());
            }
        }
        lemma_first_of_least_distance_wins(front, at);
        assert(hits[hits.len() - 1] == hits.last());
    } else {
        let best = nearest_of(front);
        if best.is_some() {
            lemma_nearest_is_a_candidate(front);
            let i = choose|i: int| 0 <= i < front.len() && #[trigger] front[i] == best;
            assert(hits[i].is_some());
        }
    }
}

/// Grouping is transparent: where all distances are numbers, the nearest hit
/// of two groups taken one after the other is the nearer of the groups' own
/// nearest hits, the first group's at a tie. So a scene may ask each node for
/// its nearest hit and choose among the answers.
pub proof fn lemma_grouping_keeps_the_nearest(
    first: Seq<Option<Intersection>>,
    second: Seq<Option<Intersection>>,
)
    requires
        distances_are_numbers(first),
        distances_are_numbers(second),
    ensures
        nearest_of(first + second) == closer(nearest_of(first), nearest_of(second)),
    decreases second.len(),
{
    if second.len() == 0 {
        assert(first + second =~= first);
    } else {
        let front = second.drop_last();
        assert((first + second).drop_last() =~= first + front);
        assert((first + second).last() == second.last());
        assert(distances_are_numbers(front)) by {
            assert forall|i: int| 0 <= i < front.len() && (#[trigger] front[i]).is_some() implies
                !front[i].unwrap().distance.is_nan() by {
                assert(second[i].is_some());
            }
        }
        lemma_grouping_keeps_the_nearest(first, front);
        lemma_nearest_is_a_number(first);
        lemma_nearest_is_a_number(front);
        assert(second[second.len() - 1] == second.last());
    }
}

/// Where all distances are numbers, so is the distance of the nearest hit.
pub proof fn lemma_nearest_is_a_number(hits: Seq<Option<Intersection>>)
    requires
        distances_are_numbers(hits),
    ensures
        nearest_of(hits).is_some() ==> !nearest_of(hits).unwrap().distance.is_nan(),
{
    lemma_nearest_is_a_candidate(hits);
    if nearest_of(hits).is_some() {
        let i = choose|i: int| 0 <= i < hits.len() && #[trigger] hits[i] == nearest_of(hits);
        assert(hits[i].is_some());
    }
}

} // verus!
