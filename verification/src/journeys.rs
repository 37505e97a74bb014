//! Transit journeys and their fitness score: a journey is judged by how
//! little time it spends travelling and waiting after the target time.

use vstd::prelude::*;

verus! {

/// Six hours of nominal budget, in seconds.
pub const MAX_JOURNEY_TIME_SCORE: i32 = 6 * 60 * 60;

/// One transit connection, with times as Unix seconds.
#[derive(Clone, Copy, Debug)]
pub struct Journey {
    pub deptime: i64,
    pub arrtime: i64,
    pub changes: i32,
}

/// The score before the viability cutoff: the budget minus twice the
/// travel time minus the wait.
pub open spec fn raw_score(travel: int, wait: int) -> int {
    MAX_JOURNEY_TIME_SCORE - 2 * travel - wait
}

/// What `Journey::score` returns: `None` for a journey departing before
/// the target time and for one whose raw score is not positive.
pub open spec fn score_spec(j: Journey, after: int) -> Option<int> {
    if j.deptime < after {
        None
    } else {
        let s = raw_score(j.arrtime - j.deptime, j.deptime - after);
        if s > 0 {
            Some(s)
        } else {
            None
        }
    }
}

impl Journey {
    /// A journey never arrives before it departs.
    pub open spec fn wf(self) -> bool {
        self.deptime <= self.arrtime
    }

    /// Fitness of this journey for a departure at or after `after`.
    pub fn score(&self, after: i64) -> (r: Option<i32>)
        requires
            self.wf(),
        ensures
            match r {
                Some(s) => score_spec(*self, after as int) == Some(s as int),
                None => score_spec(*self, after as int) is None,
            },
    {
        if self.deptime < after {
            return None;
        }
        let travel: i128 = self.arrtime as i128 - self.deptime as i128;
        let wait: i128 = self.deptime as i128 - after as i128;
        let s: i128 = (MAX_JOURNEY_TIME_SCORE as i128) - 2 * travel - wait;
        if s > 0 {
            Some(s as i32)
        } else {
            None
        }
    }

    /// The best-scoring viable journey of `js`, with its score; the
    /// earliest wins ties.  `None` when no journey is viable.
    pub fn best(js: &Vec<Journey>, after: i64) -> (r: Option<(i32, Journey)>)
        requires
            forall|k: int| 0 <= k < js@.len() ==> (#[trigger] js@[k]).wf(),
        ensures
            match r {
                None => forall|k: int|
                    0 <= k < js@.len() ==> score_spec(#[trigger] js@[k], after as int) is None,
                Some(sj) => exists|k: int|
                    0 <= k < js@.len() && #[trigger] js@[k] == sj.1 && score_spec(
                        js@[k],
                        after as int,
                    ) == Some(sj.0 as int) && (forall|k2: int|
                        0 <= k2 < k ==> !(score_spec(#[trigger] js@[k2], after as int) is Some
                            && score_spec(js@[k2], after as int)->0 >= sj.0 as int)) && (forall|
                        k2: int,
                    |
                        0 <= k2 < js@.len() && score_spec(#[trigger] js@[k2], after as int) is Some
                            ==> score_spec(js@[k2], after as int)->0 <= sj.0 as int),
            },
    {
        let mut bscore: i32 = 0;
        let mut bj: Option<(usize, Journey)> = None;
        let mut k: usize = 0;
        while k < js.len()
            invariant
                forall|k2: int| 0 <= k2 < js@.len() ==> (#[trigger] js@[k2]).wf(),
                k <= js@.len(),
                match bj {
                    None => bscore == 0 && forall|k2: int|
                        0 <= k2 < k ==> score_spec(#[trigger] js@[k2], after as int) is None,
                    Some(ij) => {
                        &&& ij.0 < k
                        &&& js@[ij.0 as int] == ij.1
                        &&& score_spec(ij.1, after as int) == Some(bscore as int)
                        &&& bscore > 0
                        &&& forall|k2: int|
                            0 <= k2 < ij.0 ==> !(score_spec(#[trigger] js@[k2], after as int)
                                is Some && score_spec(js@[k2], after as int)->0 >= bscore as int)
                        &&& forall|k2: int|
                            0 <= k2 < k && score_spec(#[trigger] js@[k2], after as int) is Some
                                ==> score_spec(js@[k2], after as int)->0 <= bscore as int
                    },
                },
            decreases js@.len() - k,
        {
            let j = js[k];
            match j.score(after) {
                Some(s) => {
                    if s > bscore {
                        bj = Some((k, j));
                        bscore = s;
                    }
                },
                None => {},
            }
            k = k + 1;
        }
        match bj {
            None => None,
            Some((_, j)) => Some((bscore, j)),
        }
    }
}

/// A journey departing before the target time has no score.
pub proof fn lemma_score_undefined_before(j: Journey, after: int)
    requires
        j.deptime < after,
    ensures
        score_spec(j, after) is None,
{
}

/// The score falls strictly as travel or wait time grows: if the worse
/// journey is still viable, the better one is viable with a strictly
/// higher score.
pub proof fn lemma_score_strictly_decreasing(j1: Journey, j2: Journey, after: int)
    requires
        j1.deptime >= after,
        j2.deptime >= after,
        j1.arrtime - j1.deptime <= j2.arrtime - j2.deptime,
        j1.deptime - after <= j2.deptime - after,
        (j1.arrtime - j1.deptime < j2.arrtime - j2.deptime) || (j1.deptime - after < j2.deptime
            - after),
    ensures
        raw_score(j1.arrtime - j1.deptime, j1.deptime - after) > raw_score(
            j2.arrtime - j2.deptime,
            j2.deptime - after,
        ),
        score_spec(j2, after) is Some ==> score_spec(j1, after) is Some && score_spec(
            j1,
            after,
        )->0 > score_spec(j2, after)->0,
{
}

} // verus!
