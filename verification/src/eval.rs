//! Evaluation of fully parenthesised expressions over single digits, with
//! one stack for the operators and one for the numbers.
//!
//! A digit is pushed on the number stack and an operator on the operator
//! stack.  An opening parenthesis and white space mean nothing.  A closing
//! parenthesis takes two numbers and one operator off the stacks and puts
//! the result back.  What is on top of the number stack at the end is the
//! value of the expression.

use vstd::prelude::*;
use vstd::std_specs::iter::IteratorSpec;
use crate::stack::{List, Stack};

verus! {

/// The four operations of arithmetic.
#[derive(Debug, Copy, Clone, PartialEq, Eq, Structural)]
pub enum Op {
    Plus,
    Minus,
    Multiply,
    Divide,
}

/// What `char::is_numeric` answers for `c`.
pub uninterp spec fn numeric(c: char) -> bool;

/// What `char::is_whitespace` answers for `c`.
pub uninterp spec fn whitespace(c: char) -> bool;

/// `char::is_numeric` tells whether a character belongs to one of the
/// Unicode categories of numbers.  The answer depends on the character
/// alone; it is named here and not spelled out.
pub assume_specification[ char::is_numeric ](c: char) -> (r: bool)
    ensures
        r == numeric(c),
;

/// `char::is_whitespace` tells whether a character has the Unicode property
/// of white space.  The answer depends on the character alone; it is named
/// here and not spelled out.
pub assume_specification[ char::is_whitespace ](c: char) -> (r: bool)
    ensures
        r == whitespace(c),
;

/// The two stacks of the evaluator, each from bottom to top.
pub ghost struct Machine {
    pub ops: Seq<Op>,
    pub nums: Seq<u32>,
}

/// The operator that `c` stands for.
pub open spec fn op_of(c: char) -> Option<Op> {
    if c == '+' {
        Some(Op::Plus)
    } else if c == '-' {
        Some(Op::Minus)
    } else if c == '*' {
        Some(Op::Multiply)
    } else if c == '/' {
        Some(Op::Divide)
    } else {
        None
    }
}

/// The result of `op` on `a` and `b`, where it is a number that the machine
/// can hold: no sum or product beyond the largest number, no difference
/// below zero, no division by zero.
pub open spec fn apply(op: Op, a: u32, b: u32) -> Option<u32> {
    match op {
        Op::Plus => if a + b <= u32::MAX {
            Some((a + b) as u32)
        } else {
            None
        },
        Op::Minus => if b <= a {
            Some((a - b) as u32)
        } else {
            None
        },
        Op::Multiply => if a * b <= u32::MAX {
            Some((a * b) as u32)
        } else {
            None
        },
        Op::Divide => if b != 0 {
            Some((a / b) as u32)
        } else {
            None
        },
    }
}

/// The stacks after the character `c` has been read, or `None` where the
/// evaluation cannot go on: a character that means nothing, a closing
/// parenthesis without two numbers and an operator to work on, or a result
/// that is no number of the machine.
pub open spec fn step(m: Machine, c: char) -> Option<Machine> {
    if numeric(c) {
        if c as u32 >= 48 {
            Some(Machine { ops: m.ops, nums: m.nums.push((c as u32 - 48) as u32) })
        } else {
            None
        }
    } else if c == '(' || whitespace(c) {
        Some(m)
    } else if c == ')' {
        if m.nums.len() >= 2 && m.ops.len() >= 1 {
            match apply(m.ops.last(), m.nums[m.nums.len() - 2], m.nums.last()) {
                Some(r) => Some(
                    Machine { ops: m.ops.drop_last(), nums: m.nums.drop_last().drop_last().push(r) },
                ),
                None => None,
            }
        } else {
            None
        }
    } else {
        match op_of(c) {
            Some(op) => Some(Machine { ops: m.ops.push(op), nums: m.nums }),
            None => None,
        }
    }
}

/// The stacks after all of `chars` have been read, starting from empty
/// stacks.
pub open spec fn run(chars: Seq<char>) -> Option<Machine>
    decreases chars.len(),
{
    if chars.len() == 0 {
        Some(Machine { ops: Seq::empty(), nums: Seq::empty() })
    } else {
        match run(chars.drop_last()) {
            Some(m) => step(m, chars.last()),
            None => None,
        }
    }
}

/// The value of the expression: the top of the number stack after all of
/// `chars` have been read.
pub open spec fn value(chars: Seq<char>) -> Option<u32> {
    match run(chars) {
        Some(m) => if m.nums.len() > 0 {
            Some(m.nums.last())
        } else {
            None
        },
        None => None,
    }
}

/// The operator that `c` stands for.
pub fn to_op(c: char) -> (r: Option<Op>)
    ensures
        r == op_of(c),
{
    match c {
        '+' => Some(Op::Plus),
        '-' => Some(Op::Minus),
        '*' => Some(Op::Multiply),
        '/' => Some(Op::Divide),
        _ => None,
    }
}

/// Whether `op` can be applied to `a` and `b`.
pub fn can_apply(op: Op, a: u32, b: u32) -> (ok: bool)
    ensures
        ok == apply(op, a, b) is Some,
{
    match op {
        Op::Plus => a <= u32::MAX - b,
        Op::Minus => b <= a,
        Op::Multiply => {
            assert((a as u64) * (b as u64) <= 0xffff_ffff * 0xffff_ffff) by (nonlinear_arith)
                requires
                    a <= 0xffff_ffff,
                    b <= 0xffff_ffff,
            ;
            let wide: u64 = (a as u64) * (b as u64);
            wide <= 0xffff_ffff
        },
        Op::Divide => b != 0,
    }
}

/// Applies `op` to `a` and `b`.
pub fn apply_op(op: Op, a: u32, b: u32) -> (r: u32)
    requires
        apply(op, a, b) is Some,
    ensures
        Some(r) == apply(op, a, b),
{
    match op {
        Op::Plus => a + b,
        Op::Minus => a - b,
        Op::Multiply => a * b,
        Op::Divide => a / b,
    }
}

/// Evaluates the expression.  The answer is `None` where the evaluation has
/// to stop early, and where no number is left at the end.
pub fn eval(expression: &str) -> (r: Option<u32>)
    ensures
        r == value(expression@),
{
    let mut op_stack = List::<Op>::new();
    let mut num_stack = List::<u32>::new();
    let mut chars = expression.chars();
    let ghost mut i: int = 0;
    proof {
        vstd::string::axiom_spec_iter(expression);
        assert(expression@.take(0) =~= Seq::<char>::empty());
        assert(expression@.skip(0) =~= expression@);
    }
    loop
        invariant
            0 <= i <= expression@.len(),
            chars.remaining() == expression@.skip(i),
            run(expression@.take(i)) == Some(
                Machine { ops: op_stack.items(), nums: num_stack.items() },
            ),
        ensures
            i == expression@.len(),
            run(expression@) == Some(Machine { ops: op_stack.items(), nums: num_stack.items() }),
        decreases expression@.len() - i,
    {
        let ghost before = chars;
        let next = chars.next();
        proof {
            vstd::string::next_postcondition(&before, &chars, next);
        }
        let c = match next {
            None => {
                proof {
                    assert(expression@.take(i) =~= expression@);
                }
                break ;
            },
            Some(c) => c,
        };
        let ghost m = Machine { ops: op_stack.items(), nums: num_stack.items() };
        proof {
            let done = expression@.take(i);
            let more = expression@.take(i + 1);
            assert(expression@.skip(i)[0] == expression@[i]);
            assert(more.drop_last() =~= done);
            assert(more.last() == c);
            assert(run(more) == step(m, c));
            assert(expression@.skip(i).drop_first() =~= expression@.skip(i + 1));
            if step(m, c) is None {
                lemma_stuck(expression@, i + 1);
            }
            i = i + 1;
        }
        if c.is_numeric() {
            if (c as u32) < 48 {
                return None;
            }
            num_stack.push((c as u32) - 48);
        } else if (c == '(') || c.is_whitespace() {
        } else if c == ')' {
            let b = match num_stack.pop() {
                None => {
                    return None;
                },
                Some(n) => n,
            };
            let a = match num_stack.pop() {
                None => {
                    return None;
                },
                Some(n) => n,
            };
            let op = match op_stack.pop() {
                None => {
                    return None;
                },
                Some(o) => o,
            };
            if !can_apply(op, a, b) {
                return None;
            }
            num_stack.push(apply_op(op, a, b));
        } else {
            // try to process as op
            let maybe_op = to_op(c);
            match maybe_op {
                None => {
                    return None;
                },
                Some(op) => op_stack.push(op),
            }
        }
    }
    num_stack.pop()
}

/// Once the evaluation has stopped it does not start again: if the first
/// `k` characters cannot be read, neither can the whole.
pub proof fn lemma_stuck(chars: Seq<char>, k: int)
    requires
        0 <= k <= chars.len(),
        run(chars.take(k)) is None,
    ensures
        run(chars) is None,
    decreases chars.len() - k,
{
    if k < chars.len() {
        assert(chars.take(k + 1).drop_last() =~= chars.take(k));
        lemma_stuck(chars, k + 1);
    } else {
        assert(chars.take(k) =~= chars);
    }
}

} // verus!
