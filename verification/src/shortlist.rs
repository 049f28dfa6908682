//! The shortlist: the best solutions found so far, up to a limit.

use vstd::prelude::*;
use crate::solution::Solution;

verus! {

/// Whether the solutions stand in the order of their scores, highest first.
pub open spec fn descending(list: Seq<Solution>) -> bool {
    forall|i: int, j: int|
        0 <= i <= j < list.len() ==> (#[trigger] list[i]).score >= (#[trigger] list[j]).score
}

/// The place at which a solution with `score` enters a list: behind every
/// solution that scores as much or more. Among equal scores the solution
/// that was found first stays first.
pub open spec fn place_for(list: Seq<Solution>, score: u16) -> int
    decreases list.len(),
{
    if list.len() == 0 {
        0
    } else if list.last().score >= score {
        list.len() as int
    } else {
        place_for(list.drop_last(), score)
    }
}

/// The list that results when `solution` is offered to a list of at most
/// `limit` solutions: it enters at its place, and where the list then holds
/// more than `limit`, the last one leaves.
pub open spec fn offered(list: Seq<Solution>, limit: int, solution: Solution) -> Seq<Solution> {
    let longer = list.insert(place_for(list, solution.score), solution);
    if longer.len() > limit {
        longer.take(limit)
    } else {
        longer
    }
}

/// In a descending list, the solutions before the place for `score` score as
/// much or more, and those from it on score less.
pub proof fn lemma_place_for(list: Seq<Solution>, score: u16)
    requires
        descending(list),
    ensures
        0 <= place_for(list, score) <= list.len(),
        forall|i: int| 0 <= i < place_for(list, score) ==> (#[trigger] list[i]).score >= score,
        forall|i: int| place_for(list, score) <= i < list.len() ==> (#[trigger] list[i]).score < score,
    decreases list.len(),
{
    if list.len() > 0 {
        let rest = list.drop_last();
        assert forall|i: int, j: int| 0 <= i <= j < rest.len() implies (#[trigger] rest[i]).score >= (
        #[trigger] rest[j]).score by {
            assert(list[i].score >= list[j].score);
        }
        lemma_place_for(rest, score);
        if list.last().score >= score {
            assert forall|i: int| 0 <= i < list.len() implies (#[trigger] list[i]).score >= score by {
                assert(list[i].score >= list[list.len() - 1].score);
            }
        } else {
            assert forall|i: int| 0 <= i < place_for(list, score) implies (
            #[trigger] list[i]).score >= score by {
                assert(rest[i].score >= score);
            }
            assert forall|i: int| place_for(list, score) <= i < list.len() implies (
            #[trigger] list[i]).score < score by {
                if i < rest.len() {
                    assert(rest[i].score < score);
                }
            }
        }
    }
}

/// What stands where after an offer.
pub proof fn lemma_offered(list: Seq<Solution>, limit: int, solution: Solution)
    requires
        descending(list),
        list.len() <= limit,
    ensures
        descending(offered(list, limit, solution)),
        list.len() < limit ==> offered(list, limit, solution).len() == list.len() + 1,
        list.len() == limit ==> offered(list, limit, solution).len() == limit,
        forall|i: int|
            0 <= i < offered(list, limit, solution).len() ==> #[trigger] offered(
                list,
                limit,
                solution,
            )[i] == (if i < place_for(list, solution.score) {
                list[i]
            } else if i == place_for(list, solution.score) {
                solution
            } else {
                list[i - 1]
            }),
{
    let at = place_for(list, solution.score);
    lemma_place_for(list, solution.score);
    let next = offered(list, limit, solution);
    assert forall|i: int| 0 <= i < next.len() implies #[trigger] next[i] == (if i < at {
        list[i]
    } else if i == at {
        solution
    } else {
        list[i - 1]
    }) by {}
    assert forall|i: int, j: int| 0 <= i <= j < next.len() implies (#[trigger] next[i]).score >= (
    #[trigger] next[j]).score by {
        if i < at {
            if j < at {
                assert(list[i].score >= list[j].score);
            } else if j > at {
                assert(list[i].score >= list[j - 1].score);
            }
        } else if i == at {
            if j > at {
                assert(list[j - 1].score < solution.score);
            }
        } else {
            assert(list[i - 1].score >= list[j - 1].score);
        }
    }
}

/// The best solutions found so far: at most `limit` of them, highest score
/// first.
#[derive(Debug)]
pub struct Shortlist {
    items: Vec<Solution>,
    limit: usize,
}

impl View for Shortlist {
    type V = Seq<Solution>;

    /// The solutions held, highest score first.
    closed spec fn view(&self) -> Seq<Solution> {
        self.items@
    }
}

impl Shortlist {
    /// The most solutions that the list holds.
    pub closed spec fn limit(&self) -> int {
        self.limit as int
    }

    /// The list holds no more than its limit, in descending order.
    pub closed spec fn wf(&self) -> bool {
        &&& self.items@.len() <= self.limit
        &&& descending(self.items@)
    }

    /// What a well-formed list promises.
    pub proof fn lemma_wf(&self)
        requires
            self.wf(),
        ensures
            self@.len() <= self.limit(),
            descending(self@),
    {
    }

    /// The empty list for up to `limit` solutions.
    pub fn new(limit: usize) -> (list: Shortlist)
        ensures
            list.wf(),
            list.limit() == limit,
            list@ == Seq::<Solution>::empty(),
    {
        Shortlist { items: Vec::new(), limit }
    }

    /// Number of solutions held.
    pub fn len(&self) -> (n: usize)
        ensures
            n == self@.len(),
    {
        self.items.len()
    }

    /// Whether the list holds as many solutions as its limit allows.
    pub fn is_full(&self) -> (r: bool)
        ensures
            r == (self@.len() >= self.limit()),
    {
        self.items.len() >= self.limit
    }

    /// The lowest score held, if any solution is held.
    pub fn lowest(&self) -> (r: Option<u16>)
        ensures
            r == (if self@.len() == 0 {
                None
            } else {
                Some(self@.last().score)
            }),
    {
        let n = self.items.len();
        if n == 0 {
            None
        } else {
            Some(self.items[n - 1].score)
        }
    }

    /// Offers a solution to the list. It enters behind every solution that
    /// scores as much or more; where the list then holds more than its limit,
    /// the last solution leaves.
    pub fn offer(&mut self, solution: Solution)
        requires
            old(self).wf(),
        ensures
            final(self).wf(),
            final(self).limit() == old(self).limit(),
            final(self)@ == offered(old(self)@, old(self).limit(), solution),
    {
        let ghost list = self.items@;
        let mut at: usize = self.items.len();
        proof {
            assert(list.take(at as int) =~= list);
        }
        while at > 0 && self.items[at - 1].score < solution.score
            invariant
                at <= self.items@.len(),
                self.items@ == list,
                place_for(list, solution.score) == place_for(list.take(at as int), solution.score),
            decreases at,
        {
            proof {
                assert(list.take(at as int).drop_last() =~= list.take(at - 1));
                assert(list.take(at as int).last() == list[at - 1]);
            }
            at = at - 1;
        }
        proof {
            if at > 0 {
                assert(list.take(at as int).last() == list[at - 1]);
            }
            assert(at == place_for(list, solution.score));
            lemma_offered(list, self.limit as int, solution);
        }
        if at == self.items.len() && self.items.len() >= self.limit {
            proof {
                assert(list.insert(at as int, solution).take(self.limit as int) =~= list);
            }
            return ;
        }
        self.items.insert(at, solution);
        if self.items.len() > self.limit {
            self.items.pop();
            proof {
                assert(self.items@ =~= list.insert(at as int, solution).take(self.limit as int));
            }
        }
    }

    /// Hands out the solutions, highest score first.
    pub fn into_sorted_vec(self) -> (r: Vec<Solution>)
        ensures
            r@ == self@,
    {
        self.items
    }
}

} // verus!
