use crate::round::{Round, Solution};
use crate::step::Step;
use vstd::prelude::*;

verus! {

/// The character of one decimal digit.
pub open spec fn digit(d: int) -> char {
    if d == 0 {
        '0'
    } else if d == 1 {
        '1'
    } else if d == 2 {
        '2'
    } else if d == 3 {
        '3'
    } else if d == 4 {
        '4'
    } else if d == 5 {
        '5'
    } else if d == 6 {
        '6'
    } else if d == 7 {
        '7'
    } else if d == 8 {
        '8'
    } else {
        '9'
    }
}

/// A number in decimal, without leading zeros.
pub open spec fn decimal(n: nat) -> Seq<char>
    decreases n,
{
    if n < 10 {
        seq![digit(n as int)]
    } else {
        decimal(n / 10).push(digit((n % 10) as int))
    }
}

/// A step written out: the larger number, the operation's character, the
/// smaller number, an equals sign, the value.
pub open spec fn step_text(step: Step) -> Seq<char> {
    decimal(step.num_1 as nat).push(step.op_enum.glyph()) + decimal(step.num_2 as nat).push('=')
        + decimal(step.value().unwrap() as nat)
}

/// The numbers of a selection from place `from` on, each followed by a
/// space.
pub open spec fn numbers_text(sel: Seq<u32>, from: int) -> Seq<char>
    decreases sel.len() - from,
{
    if from < 0 || from >= sel.len() {
        Seq::empty()
    } else {
        decimal(sel[from] as nat).push(' ') + numbers_text(sel, from + 1)
    }
}

/// The steps of a method from place `from` on, each on a line of its own.
pub open spec fn method_text(m: Seq<Step>, from: int) -> Seq<char>
    decreases m.len() - from,
{
    if from < 0 || from >= m.len() {
        Seq::empty()
    } else {
        step_text(m[from]).push('\n') + method_text(m, from + 1)
    }
}

/// `String::push` of std: the character joins the text at its end.
#[verifier::external_body]
fn push_char(text: &mut String, c: char)
    ensures
        final(text)@ == old(text)@.push(c),
{
    text.push(c)
}

/// `String::push_str` of std: the characters of `more` join the text at its
/// end, in their order.
#[verifier::external_body]
fn push_text(text: &mut String, more: &str)
    ensures
        final(text)@ == old(text)@ + more@,
{
    text.push_str(more)
}

fn digit_char(d: u32) -> (c: char)
    requires
        d < 10,
    ensures
        c == digit(d as int),
{
    if d == 0 {
        '0'
    } else if d == 1 {
        '1'
    } else if d == 2 {
        '2'
    } else if d == 3 {
        '3'
    } else if d == 4 {
        '4'
    } else if d == 5 {
        '5'
    } else if d == 6 {
        '6'
    } else if d == 7 {
        '7'
    } else if d == 8 {
        '8'
    } else {
        '9'
    }
}

/// Writes `n` in decimal at the end of `text`.
pub fn push_decimal(text: &mut String, n: u32)
    ensures
        final(text)@ == old(text)@ + decimal(n as nat),
    decreases n,
{
    if n >= 10 {
        push_decimal(text, n / 10);
    }
    push_char(text, digit_char(n % 10));
    assert(text@ =~= old(text)@ + decimal(n as nat));
}

impl Step {
    /// The value of the step, in decimal.
    pub fn output_string(&self) -> (text: String)
        requires
            self.well_formed(),
            self.value() is Some,
        ensures
            text@ == decimal(self.value().unwrap() as nat),
    {
        let mut text = String::new();
        match self.output() {
            Ok(number) => {
                push_decimal(&mut text, number);
            },
            Err(_) => {},
        }
        assert(text@ =~= decimal(self.value().unwrap() as nat));
        text
    }

    /// The step written out, as in `100+50=150`.
    pub fn to_text(&self) -> (text: String)
        requires
            self.well_formed(),
            self.value() is Some,
        ensures
            text@ == step_text(*self),
    {
        let mut text = String::new();
        push_decimal(&mut text, self.num_1);
        push_char(&mut text, self.op_enum.symbol());
        push_decimal(&mut text, self.num_2);
        push_char(&mut text, '=');
        match self.output() {
            Ok(number) => {
                push_decimal(&mut text, number);
            },
            Err(_) => {},
        }
        assert(text@ =~= step_text(*self));
        text
    }
}

impl Round {
    /// The round written out: its numbers, each followed by a space, then
    /// `with a target of` and the target.
    pub fn to_text(&self) -> (text: String)
        ensures
            text@ == numbers_text(self.selection@, 0) + "with a target of "@ + decimal(
                self.target as nat,
            ),
    {
        let mut text = String::new();
        let ghost sel = self.selection@;
        let mut k: usize = 0;
        while k < self.selection.len()
            invariant
                sel == self.selection@,
                k <= sel.len(),
                text@ + numbers_text(sel, k as int) == numbers_text(sel, 0),
            decreases sel.len() - k,
        {
            let ghost before = text@;
            push_decimal(&mut text, self.selection[k]);
            push_char(&mut text, ' ');
            assert(text@ + numbers_text(sel, k + 1) =~= before + numbers_text(sel, k as int));
            k += 1;
        }
        assert(text@ =~= numbers_text(sel, 0));
        push_text(&mut text, "with a target of ");
        push_decimal(&mut text, self.target);
        text
    }
}

impl Solution {
    /// The solution written out: each step on a line of its own, or
    /// `impossible` where the target was not reached.
    pub fn to_text(&self) -> (text: String)
        requires
            self.can_be_shown(),
        ensures
            self.solved ==> text@ == method_text(self.method@, 0),
            !self.solved ==> text@ == "impossible"@,
    {
        let mut text = String::new();
        if self.solved {
            let ghost m = self.method@;
            let mut k: usize = 0;
            while k < self.method.len()
                invariant
                    m == self.method@,
                    self.can_be_shown(),
                    k <= m.len(),
                    text@ + method_text(m, k as int) == method_text(m, 0),
                decreases m.len() - k,
            {
                let ghost before = text@;
                let line = self.method[k].to_text();
                push_text(&mut text, line.as_str());
                push_char(&mut text, '\n');
                assert(text@ + method_text(m, k + 1) =~= before + method_text(m, k as int));
                k += 1;
            }
            assert(text@ =~= method_text(m, 0));
        } else {
            push_text(&mut text, "impossible");
            assert(text@ =~= "impossible"@);
        }
        text
    }
}

} // verus!
