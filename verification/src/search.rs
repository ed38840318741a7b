use crate::operation::Operation;
use crate::step::Step;
use vstd::prelude::*;

verus! {

/// The product of the successors of the numbers of a selection. No number
/// that steps can make of the selection exceeds it.
pub open spec fn span(sel: Seq<u32>) -> nat
    decreases sel.len(),
{
    if sel.len() == 0 {
        1
    } else {
        span(sel.drop_last()) * ((sel.last() + 1) as nat)
    }
}

/// The step that combines the numbers at places `i` and `j` by the
/// operation at place `o`, the larger number first.
pub open spec fn step_at(sel: Seq<u32>, i: int, j: int, o: int) -> Step {
    Step {
        num_1: if sel[i] >= sel[j] { sel[i] } else { sel[j] },
        num_2: if sel[i] >= sel[j] { sel[j] } else { sel[i] },
        op_enum: Operation::at(o),
    }
}

/// The selection after a step: the numbers at places `i < j` leave, and the
/// step's value joins at the end.
pub open spec fn reduced(sel: Seq<u32>, i: int, j: int, value: u32) -> Seq<u32> {
    sel.remove(j).remove(i).push(value)
}

/// Every number that steps can make of the selection is a `u32`: each step
/// on two of its numbers has such a value, and the same holds of the
/// selection that the step leaves.
pub open spec fn stays_in_range(sel: Seq<u32>) -> bool
    decreases sel.len(),
{
    forall|i: int, j: int, o: int|
        0 <= i < j < sel.len() && 0 <= o < 4 ==> match (#[trigger] step_at(sel, i, j, o)).value() {
            Some(v) => v <= u32::MAX && (sel.len() > 2 ==> stays_in_range(
                reduced(sel, i, j, v as u32),
            )),
            None => true,
        }
}

/// Of two methods the shorter, and the first where they are equally long.
pub open spec fn prefer(first: Option<Seq<Step>>, second: Option<Seq<Step>>) -> Option<Seq<Step>> {
    match (first, second) {
        (Some(a), Some(b)) => if a.len() <= b.len() {
            first
        } else {
            second
        },
        (Some(_), None) => first,
        _ => second,
    }
}

/// The method that begins with the step at `(i, j, o)`: the step alone where
/// it gives the target, else the step followed by the best method for the
/// reduced selection. `None` where the step does not apply or nothing
/// follows it to the target.
pub open spec fn candidate(sel: Seq<u32>, target: u32, i: int, j: int, o: int) -> Option<Seq<Step>>
    decreases sel.len(), 0int, 0int, 0int,
{
    let step = step_at(sel, i, j, o);
    match step.value() {
        None => None,
        Some(v) => if v == target {
            Some(seq![step])
        } else if 0 <= i < j < sel.len() && sel.len() > 2 {
            match best_from(reduced(sel, i, j, v as u32), target, 0, 1, 0) {
                Some(rest) => Some(seq![step] + rest),
                None => None,
            }
        } else {
            None
        },
    }
}

/// The best of the candidates from `(i, j, o)` on, in the order of the
/// search: pairs `i < j` by `i`, then by `j`, and for each pair the four
/// operations. The best is the shortest, and among the shortest the first.
pub open spec fn best_from(sel: Seq<u32>, target: u32, i: int, j: int, o: int) -> Option<Seq<Step>>
    decreases sel.len(), sel.len() - i, sel.len() - j, 4 - o,
{
    if i < 0 || j <= i || o < 0 || i + 1 >= sel.len() {
        None
    } else if j >= sel.len() {
        best_from(sel, target, i + 1, i + 2, 0)
    } else if o >= 4 {
        best_from(sel, target, i, j + 1, 0)
    } else {
        prefer(candidate(sel, target, i, j, o), best_from(sel, target, i, j, o + 1))
    }
}

/// The method that a search of the whole selection settles on, if any.
pub open spec fn best_method(sel: Seq<u32>, target: u32) -> Option<Seq<Step>> {
    best_from(sel, target, 0, 1, 0)
}

pub proof fn lemma_span_positive(sel: Seq<u32>)
    ensures
        span(sel) >= 1,
    decreases sel.len(),
{
    if sel.len() > 0 {
        lemma_span_positive(sel.drop_last());
        assert(span(sel.drop_last()) * ((sel.last() + 1) as nat) >= 1) by (nonlinear_arith)
            requires
                span(sel.drop_last()) >= 1,
                (sel.last() + 1) as nat >= 1,
        ;
    }
}

pub proof fn lemma_span_push(sel: Seq<u32>, x: u32)
    ensures
        span(sel.push(x)) == span(sel) * ((x + 1) as nat),
{
    assert(sel.push(x).drop_last() =~= sel);
}

/// The span of two selections put together is the product of their spans.
pub proof fn lemma_span_concat(a: Seq<u32>, b: Seq<u32>)
    ensures
        span(a + b) == span(a) * span(b),
    decreases b.len(),
{
    if b.len() == 0 {
        assert(a + b =~= a);
        assert(span(b) == 1);
        assert(span(a) * 1 == span(a));
    } else {
        lemma_span_concat(a, b.drop_last());
        assert((a + b).drop_last() =~= a + b.drop_last());
        assert((a + b).last() == b.last());
        let x = span(a);
        let y = span(b.drop_last());
        let z = (b.last() + 1) as nat;
        assert((x * y) * z == x * (y * z)) by (nonlinear_arith);
        assert(span(a + b) == span(a + b.drop_last()) * z);
        assert(span(b) == y * z);
    }
}

/// `base` multiplied with itself `exp` times.
pub open spec fn power(base: nat, exp: nat) -> nat
    decreases exp,
{
    if exp == 0 {
        1
    } else {
        base * power(base, (exp - 1) as nat)
    }
}

/// Where no number of a selection exceeds `cap`, its span is at most the
/// successor of `cap` to the power of its length.
pub proof fn lemma_span_capped(sel: Seq<u32>, cap: u32)
    requires
        forall|k: int| 0 <= k < sel.len() ==> sel[k] <= cap,
    ensures
        span(sel) <= power((cap + 1) as nat, sel.len()),
    decreases sel.len(),
{
    if sel.len() > 0 {
        lemma_span_capped(sel.drop_last(), cap);
        let x = span(sel.drop_last());
        let y = power((cap + 1) as nat, (sel.len() - 1) as nat);
        let c = (sel.last() + 1) as nat;
        let d = (cap + 1) as nat;
        assert(x * c <= d * y) by (nonlinear_arith)
            requires
                x <= y,
                c <= d,
        ;
    }
}

/// Taking one number out divides the span by its successor.
pub proof fn lemma_span_remove(sel: Seq<u32>, k: int)
    requires
        0 <= k < sel.len(),
    ensures
        span(sel) == span(sel.remove(k)) * ((sel[k] + 1) as nat),
    decreases sel.len(),
{
    if k == sel.len() - 1 {
        assert(sel.remove(k) =~= sel.drop_last());
    } else {
        let front = sel.drop_last();
        lemma_span_remove(front, k);
        assert(sel.remove(k) =~= front.remove(k).push(sel.last()));
        lemma_span_push(front.remove(k), sel.last());
        let p = span(front.remove(k));
        let a = (sel[k] + 1) as nat;
        let b = (sel.last() + 1) as nat;
        assert((p * a) * b == (p * b) * a) by (nonlinear_arith);
    }
}

/// A step on two numbers of a selection stays within the selection's span,
/// and so does the selection that it leaves.
pub proof fn lemma_step_within_span(sel: Seq<u32>, i: int, j: int, o: int)
    requires
        0 <= i < j < sel.len(),
        0 <= o < 4,
        span(sel) <= u32::MAX,
    ensures
        match step_at(sel, i, j, o).value() {
            Some(v) => 0 <= v < span(sel) && span(reduced(sel, i, j, v as u32)) <= span(sel),
            None => true,
        },
{
    let step = step_at(sel, i, j, o);
    let rest = sel.remove(j).remove(i);
    lemma_span_remove(sel, j);
    lemma_span_remove(sel.remove(j), i);
    lemma_span_positive(rest);
    let p = span(rest);
    let a = step.num_1 as int;
    let b = step.num_2 as int;
    assert(span(sel) == p * ((a + 1) * (b + 1))) by (nonlinear_arith)
        requires
            span(sel) == span(sel.remove(j)) * ((sel[j] + 1) as nat),
            span(sel.remove(j)) == p * ((sel[i] + 1) as nat),
            (a == sel[i] && b == sel[j]) || (a == sel[j] && b == sel[i]),
    ;
    if let Some(v) = step.value() {
        assert(0 <= v && v + 1 <= (a + 1) * (b + 1)) by (nonlinear_arith)
            requires
                0 <= b <= a,
                v == a + b || v == a - b || v == a * b || (b != 0 && v == a / b),
        ;
        assert(p * (v + 1) <= p * ((a + 1) * (b + 1))) by (nonlinear_arith)
            requires
                p >= 1,
                v + 1 <= (a + 1) * (b + 1),
        ;
        assert(v + 1 <= p * (v + 1)) by (nonlinear_arith)
            requires
                p >= 1,
                v + 1 >= 1,
        ;
        lemma_span_push(rest, v as u32);
    }
}

/// A selection whose span is a `u32` stays in range.
pub proof fn lemma_span_keeps_in_range(sel: Seq<u32>)
    requires
        span(sel) <= u32::MAX,
    ensures
        stays_in_range(sel),
    decreases sel.len(),
{
    assert forall|i: int, j: int, o: int| 0 <= i < j < sel.len() && 0 <= o < 4 implies match (
    #[trigger] step_at(sel, i, j, o)).value() {
        Some(v) => v <= u32::MAX && (sel.len() > 2 ==> stays_in_range(
            reduced(sel, i, j, v as u32),
        )),
        None => true,
    } by {
        lemma_step_within_span(sel, i, j, o);
        if let Some(v) = step_at(sel, i, j, o).value() {
            if sel.len() > 2 {
                lemma_span_keeps_in_range(reduced(sel, i, j, v as u32));
            }
        }
    }
}

/// A candidate method has at least one step.
pub proof fn lemma_candidate_nonempty(sel: Seq<u32>, target: u32, i: int, j: int, o: int)
    ensures
        match candidate(sel, target, i, j, o) {
            Some(m) => m.len() >= 1 && m[0] == step_at(sel, i, j, o),
            None => true,
        },
{
}

/// A method that a search settles on has at least one step.
pub proof fn lemma_best_nonempty(sel: Seq<u32>, target: u32, i: int, j: int, o: int)
    ensures
        match best_from(sel, target, i, j, o) {
            Some(m) => m.len() >= 1,
            None => true,
        },
    decreases sel.len() - i, sel.len() - j, 4 - o,
{
    if i < 0 || j <= i || o < 0 || i + 1 >= sel.len() {
    } else if j >= sel.len() {
        lemma_best_nonempty(sel, target, i + 1, i + 2, 0);
    } else if o >= 4 {
        lemma_best_nonempty(sel, target, i, j + 1, 0);
    } else {
        lemma_best_nonempty(sel, target, i, j, o + 1);
        lemma_candidate_nonempty(sel, target, i, j, o);
    }
}

/// The selection that a step leaves: a copy without the numbers at places
/// `i < j`, with `value` at its end.
pub fn replace_pair(sel: &Vec<u32>, i: usize, j: usize, value: u32) -> (out: Vec<u32>)
    requires
        i < j < sel@.len(),
    ensures
        out@ == reduced(sel@, i as int, j as int, value),
{
    let mut out: Vec<u32> = Vec::new();
    let mut k: usize = 0;
    while k < sel.len()
        invariant
            i < j < sel@.len(),
            k <= sel@.len(),
            k <= i ==> out@ == sel@.take(k as int),
            i < k <= j ==> out@ == sel@.take(k as int).remove(i as int),
            j < k ==> out@ == sel@.take(k as int).remove(j as int).remove(i as int),
        decreases sel@.len() - k,
    {
        if k != i && k != j {
            out.push(sel[k]);
        }
        k += 1;
        proof {
            let before = sel@.take(k - 1);
            let now = sel@.take(k as int);
            assert(now =~= before.push(sel@[k - 1]));
            if k - 1 == i {
                assert(now.remove(i as int) =~= before);
            } else if k - 1 == j {
                assert(now.remove(j as int).remove(i as int) =~= before.remove(i as int));
            } else if k <= i {
            } else if k <= j {
                assert(now.remove(i as int) =~= before.remove(i as int).push(sel@[k - 1]));
            } else {
                assert(now.remove(j as int).remove(i as int) =~= before.remove(j as int).remove(
                    i as int,
                ).push(sel@[k - 1]));
            }
        }
    }
    assert(sel@.take(k as int) =~= sel@);
    out.push(value);
    out
}

/// A method made of `step` and then the steps of `rest`.
pub fn prepend(step: Step, rest: &Vec<Step>) -> (out: Vec<Step>)
    ensures
        out@ == seq![step] + rest@,
{
    let mut out: Vec<Step> = Vec::new();
    out.push(step);
    let mut k: usize = 0;
    while k < rest.len()
        invariant
            k <= rest@.len(),
            out@ == seq![step] + rest@.take(k as int),
        decreases rest@.len() - k,
    {
        out.push(rest[k]);
        k += 1;
        assert(seq![step] + rest@.take(k as int) =~= (seq![step] + rest@.take(k - 1)).push(
            rest@[k - 1],
        ));
    }
    assert(rest@.take(k as int) =~= rest@);
    out
}

} // verus!
