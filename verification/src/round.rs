use crate::laws::{follows, lemma_method_steps_evaluate, lemma_solution_is_method};
use crate::operation::Operation;
use crate::search::{
    best_from, best_method, candidate, lemma_best_nonempty, lemma_span_concat,
    lemma_span_keeps_in_range, lemma_span_positive, prefer, prepend, replace_pair, span,
    stays_in_range, step_at,
};
use crate::step::Step;
use vstd::prelude::*;

verus! {

/// A puzzle: the numbers at hand and the number to reach.
pub struct Round {
    pub selection: Vec<u32>,
    pub target: u32,
}

/// The outcome of a search: the steps in the order in which they are carried
/// out, and whether the target was reached.
pub struct Solution {
    pub method: Vec<Step>,
    pub solved: bool,
}

impl View for Solution {
    type V = Option<Seq<Step>>;

    /// The method where the target was reached, else `None`.
    open spec fn view(&self) -> Option<Seq<Step>> {
        if self.solved {
            Some(self.method@)
        } else {
            None
        }
    }
}

impl Solution {
    /// Without success there is no method.
    pub open spec fn well_formed(&self) -> bool {
        !self.solved ==> self.method@.len() == 0
    }

    /// Every step of the method can be evaluated, and so written out with
    /// its value.
    pub open spec fn can_be_shown(&self) -> bool {
        forall|k: int|
            0 <= k < self.method@.len() ==> (#[trigger] self.method@[k]).well_formed()
                && self.method@[k].value() is Some
    }
}

impl Round {
    /// No step on the selection, nor on what steps make of it, leaves the
    /// range of `u32`.
    pub open spec fn within_limits(&self) -> bool {
        stays_in_range(self.selection@)
    }

    /// The round with the given numbers and target.
    pub fn new_spec(selection: Vec<u32>, target: u32) -> (round: Round)
        ensures
            round.selection == selection,
            round.target == target,
    {
        Round { selection, target }
    }

    /// Whether the span of the selection is a `u32`. Where it is, `solve`
    /// can take the round.
    pub fn fits(&self) -> (ok: bool)
        ensures
            ok == (span(self.selection@) <= u32::MAX),
            ok ==> self.within_limits(),
    {
        let mut product: u64 = 1;
        let mut k: usize = 0;
        while k < self.selection.len()
            invariant
                k <= self.selection@.len(),
                product == span(self.selection@.take(k as int)),
                product <= u32::MAX,
            decreases self.selection@.len() - k,
        {
            let factor: u64 = self.selection[k] as u64 + 1;
            proof {
                let front = self.selection@.take(k as int);
                let now = self.selection@.take(k + 1);
                assert(now.drop_last() =~= front);
                assert(span(now) == span(front) * factor);
                assert(product * factor <= 0xffff_ffff * 0x1_0000_0000) by (nonlinear_arith)
                    requires
                        product <= 0xffff_ffff,
                        factor <= 0x1_0000_0000,
                ;
                lemma_span_concat(now, self.selection@.skip(k + 1));
                lemma_span_positive(self.selection@.skip(k + 1));
                assert(now + self.selection@.skip(k + 1) =~= self.selection@);
                let rest = span(self.selection@.skip(k + 1));
                assert(span(now) <= span(now) * rest) by (nonlinear_arith)
                    requires
                        rest >= 1,
                ;
            }
            let next = product * factor;
            if next > 0xffff_ffff {
                return false;
            }
            product = next;
            k += 1;
        }
        proof {
            assert(self.selection@.take(k as int) =~= self.selection@);
            lemma_span_keeps_in_range(self.selection@);
        }
        true
    }

    /// Searches every way of combining the numbers for the shortest method
    /// that reaches the target; among the shortest, the first in the order
    /// of the search. A number that already equals the target is no method:
    /// at least one step is asked for.
    pub fn solve(&self) -> (soln: Solution)
        requires
            self.within_limits(),
        ensures
            soln.well_formed(),
            soln@ == best_method(self.selection@, self.target),
            soln.solved ==> soln.method@.len() >= 1,
            soln.solved ==> follows(self.selection@, self.target, soln.method@),
            soln.can_be_shown(),
            self.selection@.len() <= 1 ==> !soln.solved,
        decreases self.selection@.len(),
    {
        let n = self.selection.len();
        let mut best = Solution { method: Vec::new(), solved: false };
        if n < 2 {
            return best;
        }
        let mut i: usize = 0;
        while i < n - 1
            invariant
                n == self.selection@.len(),
                n >= 2,
                i <= n - 1,
                self.within_limits(),
                best.well_formed(),
                best.solved ==> best.method@.len() >= 2,
                prefer(best@, best_from(self.selection@, self.target, i as int, i + 1, 0))
                    == best_method(self.selection@, self.target),
            decreases n - i,
        {
            let mut j: usize = i + 1;
            while j < n
                invariant
                    n == self.selection@.len(),
                    i + 1 < n,
                    i + 1 <= j <= n,
                    self.within_limits(),
                    best.well_formed(),
                    best.solved ==> best.method@.len() >= 2,
                    prefer(best@, best_from(self.selection@, self.target, i as int, j as int, 0))
                        == best_method(self.selection@, self.target),
                decreases n - j,
            {
                let mut o: u8 = 0;
                while o < 4
                    invariant
                        n == self.selection@.len(),
                        i < j < n,
                        o <= 4,
                        self.within_limits(),
                        best.well_formed(),
                        best.solved ==> best.method@.len() >= 2,
                        prefer(
                            best@,
                            best_from(self.selection@, self.target, i as int, j as int, o as int),
                        ) == best_method(self.selection@, self.target),
                    decreases 4 - o,
                {
                    let a = self.selection[i];
                    let b = self.selection[j];
                    let op = Operation::nth(o);
                    let step = if a >= b {
                        Step::new(a, b, op)
                    } else {
                        Step::new(b, a, op)
                    };
                    proof {
                        assert(step == step_at(self.selection@, i as int, j as int, o as int));
                        lemma_best_nonempty(self.selection@, self.target, i as int, j as int, o + 1);
                    }
                    match step.output() {
                        Err(_) => {},
                        Ok(number) => {
                            if number == self.target {
                                let method = vec![step];
                                proof {
                                    assert(method@ =~= seq![step]);
                                    assert(candidate(
                                        self.selection@,
                                        self.target,
                                        i as int,
                                        j as int,
                                        o as int,
                                    ) == Some(seq![step]));
                                }
                                proof {
                                    assert(best_method(self.selection@, self.target) == Some(
                                        method@,
                                    ));
                                    lemma_solution_is_method(self.selection@, self.target);
                                    lemma_method_steps_evaluate(
                                        self.selection@,
                                        self.target,
                                        method@,
                                    );
                                }
                                return Solution { method, solved: true };
                            } else if n > 2 {
                                let round = Round {
                                    selection: replace_pair(&self.selection, i, j, number),
                                    target: self.target,
                                };
                                let sol = round.solve();
                                if sol.solved && (!best.solved || sol.method.len() < best.method.len()
                                    - 1) {
                                    best = Solution { method: prepend(step, &sol.method), solved: true };
                                }
                            }
                        },
                    }
                    o += 1;
                }
                j += 1;
            }
            i += 1;
        }
        proof {
            if best.solved {
                lemma_solution_is_method(self.selection@, self.target);
                lemma_method_steps_evaluate(self.selection@, self.target, best.method@);
            }
        }
        best
    }
}

} // verus!
