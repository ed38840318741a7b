use crate::operation::Operation;
use crate::round::{Round, Solution};
use crate::search::{best_from, best_method, candidate, reduced, stays_in_range, step_at};
use crate::step::Step;
use vstd::prelude::*;

verus! {

/// On two numbers with the larger first, plus, minus and times always
/// apply; divide applies where the second is not zero and leaves no
/// remainder; and no value is negative.
pub proof fn lemma_operations_apply(step: Step)
    requires
        step.num_1 >= step.num_2,
    ensures
        step.op_enum != Operation::Divide ==> step.value() is Some,
        step.op_enum == Operation::Divide ==> (step.value() is Some <==> step.num_2 != 0
            && step.num_1 % step.num_2 == 0),
        step.value() matches Some(v) ==> v >= 0,
{
    let a = step.num_1 as int;
    let b = step.num_2 as int;
    assert(a * b >= 0) by (nonlinear_arith)
        requires
            a >= 0,
            b >= 0,
    ;
    if b != 0 {
        assert(a / b >= 0) by (nonlinear_arith)
            requires
                a >= 0,
                b > 0,
        ;
    }
}

/// The first step of `m` combines the numbers at places `i < j` of the
/// selection by the operation at place `o`, and the operation applies.
pub open spec fn begins_with(sel: Seq<u32>, m: Seq<Step>, i: int, j: int, o: int) -> bool {
    &&& 0 <= i < j < sel.len()
    &&& 0 <= o < 4
    &&& m.len() >= 1
    &&& m[0] == step_at(sel, i, j, o)
    &&& m[0].value() is Some
}

/// `m` is a method for the selection and the target: each step combines two
/// of the numbers at hand, which leave, and its value joins those at hand;
/// the value of the last step is the target.
pub open spec fn follows(sel: Seq<u32>, target: u32, m: Seq<Step>) -> bool
    decreases m.len(),
{
    &&& m.len() >= 1
    &&& exists|i: int, j: int, o: int| #[trigger]
        begins_with(sel, m, i, j, o) && if m.len() == 1 {
            m[0].value() == Some(target as int)
        } else {
            follows(reduced(sel, i, j, m[0].value().unwrap() as u32), target, m.drop_first())
        }
}

/// A method needs two numbers to begin with.
pub proof fn lemma_method_needs_pair(sel: Seq<u32>, target: u32, m: Seq<Step>)
    requires
        follows(sel, target, m),
    ensures
        sel.len() >= 2,
{
    let (i, j, o) = choose|i: int, j: int, o: int| #[trigger] begins_with(sel, m, i, j, o);
}

/// What a candidate holds is a method for the selection and the target.
pub proof fn lemma_candidate_follows(sel: Seq<u32>, target: u32, i: int, j: int, o: int)
    requires
        stays_in_range(sel),
        0 <= i < j < sel.len(),
        0 <= o < 4,
    ensures
        match candidate(sel, target, i, j, o) {
            Some(m) => follows(sel, target, m),
            None => true,
        },
    decreases sel.len(), 0int, 0int, 0int,
{
    let step = step_at(sel, i, j, o);
    if let Some(v) = step.value() {
        if v == target {
            let m = seq![step];
            assert(begins_with(sel, m, i, j, o));
        } else if sel.len() > 2 {
            let next = reduced(sel, i, j, v as u32);
            lemma_best_follows(next, target, 0, 1, 0);
            if let Some(rest) = best_from(next, target, 0, 1, 0) {
                let m = seq![step] + rest;
                assert(m.drop_first() =~= rest);
                assert(begins_with(sel, m, i, j, o));
            }
        }
    }
}

/// What a search settles on is a method for the selection and the target.
pub proof fn lemma_best_follows(sel: Seq<u32>, target: u32, i: int, j: int, o: int)
    requires
        stays_in_range(sel),
    ensures
        match best_from(sel, target, i, j, o) {
            Some(m) => follows(sel, target, m),
            None => true,
        },
    decreases sel.len(), sel.len() - i, sel.len() - j, 4 - o,
{
    if i < 0 || j <= i || o < 0 || i + 1 >= sel.len() {
    } else if j >= sel.len() {
        lemma_best_follows(sel, target, i + 1, i + 2, 0);
    } else if o >= 4 {
        lemma_best_follows(sel, target, i, j + 1, 0);
    } else {
        lemma_best_follows(sel, target, i, j, o + 1);
        lemma_candidate_follows(sel, target, i, j, o);
    }
}

/// The place `(i, j, o)` comes at or after the place `(i0, j0, o0)` in the
/// order of the search.
pub open spec fn not_before(i0: int, j0: int, o0: int, i: int, j: int, o: int) -> bool {
    i0 < i || (i0 == i && (j0 < j || (j0 == j && o0 <= o)))
}

/// The best from a place on is no longer than any candidate from there on.
pub proof fn lemma_best_no_longer(
    sel: Seq<u32>,
    target: u32,
    i0: int,
    j0: int,
    o0: int,
    i: int,
    j: int,
    o: int,
)
    requires
        0 <= i0 < j0,
        0 <= o0,
        0 <= i < j < sel.len(),
        0 <= o < 4,
        not_before(i0, j0, o0, i, j, o),
        candidate(sel, target, i, j, o) is Some,
    ensures
        best_from(sel, target, i0, j0, o0) is Some,
        best_from(sel, target, i0, j0, o0).unwrap().len() <= candidate(
            sel,
            target,
            i,
            j,
            o,
        ).unwrap().len(),
    decreases sel.len() - i0, sel.len() - j0, 4 - o0,
{
    if j0 >= sel.len() {
        lemma_best_no_longer(sel, target, i0 + 1, i0 + 2, 0, i, j, o);
    } else if o0 >= 4 {
        lemma_best_no_longer(sel, target, i0, j0 + 1, 0, i, j, o);
    } else if i0 == i && j0 == j && o0 == o {
    } else {
        lemma_best_no_longer(sel, target, i0, j0, o0 + 1, i, j, o);
    }
}

/// `(i, j, o)` is a place of the search: a pair of places of the selection
/// and the place of an operation.
pub open spec fn is_place(sel: Seq<u32>, i: int, j: int, o: int) -> bool {
    0 <= i < j < sel.len() && 0 <= o < 4
}

/// Among the candidates from the place `(i0, j0, o0)` on, `m` is the one at
/// `(i, j, o)`, none is shorter, and those before `(i, j, o)` are longer.
pub open spec fn first_shortest_at(
    sel: Seq<u32>,
    target: u32,
    i0: int,
    j0: int,
    o0: int,
    i: int,
    j: int,
    o: int,
    m: Seq<Step>,
) -> bool {
    &&& is_place(sel, i, j, o)
    &&& not_before(i0, j0, o0, i, j, o)
    &&& candidate(sel, target, i, j, o) == Some(m)
    &&& forall|a: int, b: int, c: int|
        is_place(sel, a, b, c) && not_before(i0, j0, o0, a, b, c) ==> match #[trigger] candidate(
            sel,
            target,
            a,
            b,
            c,
        ) {
            Some(x) => m.len() <= x.len() && (!not_before(i, j, o, a, b, c) ==> m.len() < x.len()),
            None => true,
        }
}

/// No place from `(i0, j0, o0)` on has a candidate.
pub open spec fn none_from(sel: Seq<u32>, target: u32, i0: int, j0: int, o0: int) -> bool {
    forall|a: int, b: int, c: int|
        is_place(sel, a, b, c) && not_before(i0, j0, o0, a, b, c) ==> #[trigger] candidate(
            sel,
            target,
            a,
            b,
            c,
        ) is None
}

/// The best from a place on is the first of the shortest candidates from
/// there on; there is none only where there is no candidate.
pub proof fn lemma_best_is_first_shortest(sel: Seq<u32>, target: u32, i0: int, j0: int, o0: int)
    requires
        0 <= i0 < j0,
        0 <= o0,
    ensures
        match best_from(sel, target, i0, j0, o0) {
            Some(m) => exists|i: int, j: int, o: int| #[trigger]
                first_shortest_at(sel, target, i0, j0, o0, i, j, o, m),
            None => none_from(sel, target, i0, j0, o0),
        },
    decreases sel.len() - i0, sel.len() - j0, 4 - o0,
{
    if i0 + 1 >= sel.len() {
    } else if j0 >= sel.len() {
        lemma_best_is_first_shortest(sel, target, i0 + 1, i0 + 2, 0);
        if let Some(m) = best_from(sel, target, i0, j0, o0) {
            let (i, j, o) = choose|i: int, j: int, o: int| #[trigger]
                first_shortest_at(sel, target, i0 + 1, i0 + 2, 0, i, j, o, m);
            assert(first_shortest_at(sel, target, i0, j0, o0, i, j, o, m));
        }
    } else if o0 >= 4 {
        lemma_best_is_first_shortest(sel, target, i0, j0 + 1, 0);
        if let Some(m) = best_from(sel, target, i0, j0, o0) {
            let (i, j, o) = choose|i: int, j: int, o: int| #[trigger]
                first_shortest_at(sel, target, i0, j0 + 1, 0, i, j, o, m);
            assert(first_shortest_at(sel, target, i0, j0, o0, i, j, o, m));
        }
    } else {
        lemma_best_is_first_shortest(sel, target, i0, j0, o0 + 1);
        let here = candidate(sel, target, i0, j0, o0);
        let rest = best_from(sel, target, i0, j0, o0 + 1);
        assert forall|a: int, b: int, c: int|
            is_place(sel, a, b, c) && not_before(i0, j0, o0, a, b, c) && !(a == i0 && b == j0 && c
                == o0) implies not_before(i0, j0, o0 + 1, a, b, c) by {}
        match (here, rest) {
            (Some(h), Some(r)) => {
                let (i, j, o) = choose|i: int, j: int, o: int| #[trigger]
                    first_shortest_at(sel, target, i0, j0, o0 + 1, i, j, o, r);
                if h.len() <= r.len() {
                    assert(first_shortest_at(sel, target, i0, j0, o0, i0, j0, o0, h));
                } else {
                    assert(first_shortest_at(sel, target, i0, j0, o0, i, j, o, r));
                }
            },
            (Some(h), None) => {
                assert(first_shortest_at(sel, target, i0, j0, o0, i0, j0, o0, h));
            },
            (None, Some(r)) => {
                let (i, j, o) = choose|i: int, j: int, o: int| #[trigger]
                    first_shortest_at(sel, target, i0, j0, o0 + 1, i, j, o, r);
                assert(first_shortest_at(sel, target, i0, j0, o0, i, j, o, r));
            },
            (None, None) => {},
        }
    }
}

/// The order of the search decides between equally short methods: what
/// `solve` returns is the candidate of the first place, in that order, among
/// those whose candidates are shortest. It returns none only where no place
/// has a candidate.
pub proof fn lemma_solution_is_first_shortest(sel: Seq<u32>, target: u32)
    ensures
        match best_method(sel, target) {
            Some(m) => exists|i: int, j: int, o: int| #[trigger]
                first_shortest_at(sel, target, 0, 1, 0, i, j, o, m),
            None => none_from(sel, target, 0, 1, 0),
        },
        forall|a: int, b: int, c: int| is_place(sel, a, b, c) ==> not_before(0, 1, 0, a, b, c),
{
    lemma_best_is_first_shortest(sel, target, 0, 1, 0);
}

/// Soundness: what `solve` returns as solved is a method for the round:
/// every step combines two numbers at hand, and the last gives the target.
pub proof fn lemma_solution_is_method(sel: Seq<u32>, target: u32)
    requires
        stays_in_range(sel),
    ensures
        match best_method(sel, target) {
            Some(m) => follows(sel, target, m),
            None => true,
        },
{
    lemma_best_follows(sel, target, 0, 1, 0);
}

/// Completeness and optimality: where any method for the round exists,
/// `solve` finds one, and none is shorter than the one it finds.
pub proof fn lemma_solution_is_shortest(sel: Seq<u32>, target: u32, m: Seq<Step>)
    requires
        stays_in_range(sel),
        follows(sel, target, m),
    ensures
        best_method(sel, target) is Some,
        best_method(sel, target).unwrap().len() <= m.len(),
    decreases m.len(),
{
    let (i, j, o) = choose|i: int, j: int, o: int| #[trigger]
        begins_with(sel, m, i, j, o) && if m.len() == 1 {
            m[0].value() == Some(target as int)
        } else {
            follows(reduced(sel, i, j, m[0].value().unwrap() as u32), target, m.drop_first())
        };
    let v = m[0].value().unwrap();
    if v != target {
        let next = reduced(sel, i, j, v as u32);
        lemma_method_needs_pair(next, target, m.drop_first());
        lemma_solution_is_shortest(next, target, m.drop_first());
    }
    assert(candidate(sel, target, i, j, o) is Some);
    assert(candidate(sel, target, i, j, o).unwrap().len() <= m.len());
    lemma_best_no_longer(sel, target, 0, 1, 0, i, j, o);
}

/// Every step of a method is one that can be evaluated: the larger number
/// stands first, the operation applies, and the value is a `u32`.
pub proof fn lemma_method_steps_evaluate(sel: Seq<u32>, target: u32, m: Seq<Step>)
    requires
        stays_in_range(sel),
        follows(sel, target, m),
    ensures
        forall|k: int| 0 <= k < m.len() ==> (#[trigger] m[k]).well_formed() && m[k].value() is Some,
    decreases m.len(),
{
    let (i, j, o) = choose|i: int, j: int, o: int| #[trigger]
        begins_with(sel, m, i, j, o) && if m.len() == 1 {
            m[0].value() == Some(target as int)
        } else {
            follows(reduced(sel, i, j, m[0].value().unwrap() as u32), target, m.drop_first())
        };
    if m.len() > 1 {
        let v = m[0].value().unwrap();
        lemma_method_needs_pair(reduced(sel, i, j, v as u32), target, m.drop_first());
        lemma_method_steps_evaluate(reduced(sel, i, j, v as u32), target, m.drop_first());
        assert forall|k: int| 0 <= k < m.len() implies (#[trigger] m[k]).well_formed()
            && m[k].value() is Some by {
            if k > 0 {
                assert(m[k] == m.drop_first()[k - 1]);
            }
        }
    }
}

/// A selection of fewer than two numbers can always be searched, and has
/// no method, whatever the target.
pub proof fn lemma_short_selection_unsolved(sel: Seq<u32>, target: u32)
    requires
        sel.len() <= 1,
    ensures
        stays_in_range(sel),
        best_method(sel, target) is None,
{
}

/// `soln` is what `solve` returns for `round`: well-formed, and holding the
/// method that the search settles on.
pub open spec fn solves(soln: Solution, round: Round) -> bool {
    soln.well_formed() && soln@ == best_method(round.selection@, round.target)
}

/// Two searches of rounds with the same numbers and the same target end in
/// the same solution.
pub proof fn lemma_solve_deterministic(a: Round, b: Round, sa: Solution, sb: Solution)
    requires
        a.selection@ == b.selection@,
        a.target == b.target,
        solves(sa, a),
        solves(sb, b),
    ensures
        sa.solved == sb.solved,
        sa.method@ == sb.method@,
{
    assert(sa.method@ =~= sb.method@);
}

} // verus!
