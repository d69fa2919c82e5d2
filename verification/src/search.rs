//! Control of the FAST searches (FAST-S, FAST-LTS, FAST-MCD): the budget of
//! random attempts, the choice of the best candidate and the
//! concentration-step stopping rule. The numeric work each step does (fits,
//! scores, determinants) is carried out by the caller, which reports back.

use vstd::prelude::*;

verus! {

/// The attempt budget of a FAST resampling search: it keeps drawing random
/// elemental subsets until `n_subsamples` of them gave a valid exact fit or
/// `max_attempts` draws have been made, whichever comes first.
pub struct ResampleBudget {
    n_subsamples: usize,
    max_attempts: usize,
    valid: usize,
    attempts: usize,
}

/// `max(20 · n_subsamples, 50)`, the product saturating at `usize::MAX`.
pub open spec fn attempt_limit(n_subsamples: usize) -> usize {
    let scaled = if n_subsamples * 20 > usize::MAX { usize::MAX } else { (n_subsamples * 20) as usize };
    if scaled < 50 { 50 } else { scaled }
}

impl ResampleBudget {
    /// Valid fits wanted.
    pub closed spec fn target(&self) -> usize {
        self.n_subsamples
    }

    /// Maximal number of draws.
    pub closed spec fn limit(&self) -> usize {
        self.max_attempts
    }

    /// Valid fits reported so far.
    pub closed spec fn valid_so_far(&self) -> usize {
        self.valid
    }

    /// Draws handed out so far.
    pub closed spec fn attempts_so_far(&self) -> usize {
        self.attempts
    }

    /// The counters are consistent: no more valid fits than wanted or than
    /// draws, no more draws than the limit.
    pub open spec fn wf(&self) -> bool {
        &&& self.valid_so_far() <= self.target()
        &&& self.valid_so_far() <= self.attempts_so_far()
        &&& self.attempts_so_far() <= self.limit()
    }

    /// No further draw is handed out.
    pub open spec fn exhausted(&self) -> bool {
        !(self.valid_so_far() < self.target() && self.attempts_so_far() < self.limit())
    }

    /// A fresh budget for `n_subsamples` valid fits.
    pub fn new(n_subsamples: usize) -> (budget: Self)
        ensures
            budget.wf(),
            budget.target() == n_subsamples,
            budget.limit() == attempt_limit(n_subsamples),
            budget.valid_so_far() == 0,
            budget.attempts_so_far() == 0,
    {
        let scaled = match n_subsamples.checked_mul(20) {
            Some(v) => v,
            None => usize::MAX,
        };
        let max_attempts = if scaled < 50 { 50 } else { scaled };
        ResampleBudget { n_subsamples, max_attempts, valid: 0, attempts: 0 }
    }

    /// The index of the next draw, or `None` once enough valid fits were
    /// reported or the draw limit is reached. Draws are numbered `0, 1, 2, …`.
    pub fn next_attempt(&mut self) -> (attempt: Option<u64>)
        requires
            old(self).wf(),
        ensures
            final(self).wf(),
            attempt is None <==> old(self).exhausted(),
            final(self).target() == old(self).target(),
            final(self).limit() == old(self).limit(),
            final(self).valid_so_far() == old(self).valid_so_far(),
            old(self).valid_so_far() < old(self).target() && old(self).attempts_so_far() < old(self).limit() ==> {
                &&& attempt == Some(old(self).attempts_so_far() as u64)
                &&& final(self).attempts_so_far() == old(self).attempts_so_far() + 1
            },
            !(old(self).valid_so_far() < old(self).target() && old(self).attempts_so_far() < old(self).limit()) ==> {
                &&& attempt == None::<u64>
                &&& final(self).attempts_so_far() == old(self).attempts_so_far()
            },
    {
        if self.valid < self.n_subsamples && self.attempts < self.max_attempts {
            let a = self.attempts as u64;
            self.attempts = self.attempts + 1;
            Some(a)
        } else {
            None
        }
    }

    /// Report that the latest draw gave a valid exact fit.
    pub fn record_valid(&mut self)
        requires
            old(self).wf(),
            old(self).valid_so_far() < old(self).target(),
            old(self).valid_so_far() < old(self).attempts_so_far(),
        ensures
            final(self).wf(),
            final(self).target() == old(self).target(),
            final(self).limit() == old(self).limit(),
            final(self).attempts_so_far() == old(self).attempts_so_far(),
            final(self).valid_so_far() == old(self).valid_so_far() + 1,
    {
        self.valid = self.valid + 1;
    }

    /// Valid fits reported so far.
    pub fn valid_count(&self) -> (v: usize)
        ensures
            v == self.valid_so_far(),
    {
        self.valid
    }

    /// Draws handed out so far.
    pub fn attempt_count(&self) -> (a: usize)
        ensures
            a == self.attempts_so_far(),
    {
        self.attempts
    }
}

/// Stopping law: a search stops only because it has collected the valid fits
/// it wanted or because it has made all the draws it may; until then it has
/// made at most `max(20 · n_subsamples, 50)` draws and collected at most
/// `n_subsamples` valid fits.
pub proof fn lemma_budget_stops_only_when_exhausted(budget: ResampleBudget)
    requires
        budget.wf(),
    ensures
        budget.exhausted() ==> budget.valid_so_far() == budget.target() || budget.attempts_so_far() == budget.limit(),
        budget.attempts_so_far() <= budget.limit(),
        budget.valid_so_far() <= budget.target(),
{
}

/// `scores[i]` is the smallest score present and no earlier score ties it.
pub open spec fn is_first_minimum(scores: Seq<Option<i64>>, i: int) -> bool {
    &&& 0 <= i < scores.len()
    &&& scores[i] is Some
    &&& forall|j: int| 0 <= j < scores.len() && #[trigger] scores[j] is Some ==> scores[i]->0 <= scores[j]->0
    &&& forall|j: int| 0 <= j < i && #[trigger] scores[j] is Some ==> scores[i]->0 < scores[j]->0
}

/// The position of the first smallest score among the candidates that have
/// one (`None` marks a candidate that failed), or `None` if none has.
pub fn first_minimum(scores: &Vec<Option<i64>>) -> (best: Option<usize>)
    ensures
        match best {
            Some(i) => is_first_minimum(scores@, i as int),
            None => forall|j: int| 0 <= j < scores@.len() ==> #[trigger] scores@[j] is None,
        },
{
    let mut best: Option<usize> = None;
    let mut best_key: i64 = 0;
    let mut i: usize = 0;
    while i < scores.len()
        invariant
            i <= scores@.len(),
            match best {
                Some(b) => {
                    &&& b < i
                    &&& scores@[b as int] == Some(best_key)
                    &&& forall|j: int| 0 <= j < i && #[trigger] scores@[j] is Some ==> best_key <= scores@[j]->0
                    &&& forall|j: int| 0 <= j < b && #[trigger] scores@[j] is Some ==> best_key < scores@[j]->0
                },
                None => forall|j: int| 0 <= j < i ==> #[trigger] scores@[j] is None,
            },
        decreases scores@.len() - i,
    {
        match scores[i] {
            Some(k) => {
                let better = match best {
                    Some(_) => k < best_key,
                    None => true,
                };
                if better {
                    best = Some(i);
                    best_key = k;
                }
            },
            None => {},
        }
        i = i + 1;
    }
    best
}

/// Index lists `a` and `b` are equal.
fn same_indices(a: &Vec<usize>, b: &Vec<usize>) -> (same: bool)
    ensures
        same == (a@ == b@),
{
    if a.len() != b.len() {
        return false;
    }
    let mut i: usize = 0;
    while i < a.len()
        invariant
            i <= a@.len(),
            a@.len() == b@.len(),
            forall|j: int| 0 <= j < i ==> a@[j] == b@[j],
        decreases a@.len() - i,
    {
        if a[i] != b[i] {
            return false;
        }
        i = i + 1;
    }
    proof {
        assert(a@ =~= b@);
    }
    true
}

/// The stopping rule of the FAST-MCD concentration: C-steps go on until the
/// retained subset repeats, for at most `max(max_steps, 1)` steps.
pub struct SubsetConcentration {
    previous: Option<Vec<usize>>,
    remaining: usize,
}

impl SubsetConcentration {
    /// The subset retained by the latest step, if any.
    pub closed spec fn previous_subset(&self) -> Option<Seq<usize>> {
        match self.previous {
            Some(v) => Some(v@),
            None => None,
        }
    }

    /// Steps still allowed.
    pub closed spec fn steps_left(&self) -> usize {
        self.remaining
    }

    /// A concentration that allows `max(max_steps, 1)` steps.
    pub fn new(max_steps: usize) -> (c: Self)
        ensures
            c.previous_subset() == None::<Seq<usize>>,
            c.steps_left() == if max_steps == 0 { 1 } else { max_steps },
    {
        SubsetConcentration { previous: None, remaining: if max_steps == 0 { 1 } else { max_steps } }
    }

    /// Whether another step is allowed.
    pub fn can_step(&self) -> (more: bool)
        ensures
            more == (self.steps_left() > 0),
    {
        self.remaining > 0
    }

    /// Record the subset retained by one more step; `true` when it is the
    /// subset the previous step retained (the concentration has converged).
    pub fn settle(&mut self, subset: Vec<usize>) -> (converged: bool)
        requires
            old(self).steps_left() > 0,
        ensures
            converged == (old(self).previous_subset() == Some(subset@)),
            final(self).previous_subset() == Some(subset@),
            final(self).steps_left() == old(self).steps_left() - 1,
    {
        let converged = match &self.previous {
            Some(prev) => same_indices(prev, &subset),
            None => false,
        };
        self.previous = Some(subset);
        self.remaining = self.remaining - 1;
        converged
    }
}

} // verus!
