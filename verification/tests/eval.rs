use algorithms::eval::{apply_op, can_apply, eval, to_op, Op};

#[test]
fn eval_examples() {
    assert_eq!(Some(3), eval("(2 + 1)"));
    assert_eq!(Some(1), eval("(2 - 1)"));
    assert_eq!(Some(6), eval("(2 * 3)"));
    assert_eq!(Some(4), eval("(8 / 2)"));
    assert_eq!(Some(5), eval("((8 / 2) + 1)"));
}

#[test]
fn eval_single_digit() {
    assert_eq!(Some(7), eval("7"));
    assert_eq!(Some(7), eval(" ( 7"));
    assert_eq!(Some(9), eval("3 9"));
}

#[test]
fn eval_stops_early() {
    // nothing to evaluate
    assert_eq!(None, eval(""));
    assert_eq!(None, eval("  "));
    // a closing parenthesis without enough on the stacks
    assert_eq!(None, eval(")"));
    assert_eq!(None, eval("(1)"));
    assert_eq!(None, eval("(1 2)"));
    assert_eq!(None, eval("(+ 1)"));
    // a character that means nothing
    assert_eq!(None, eval("(1 ^ 2)"));
    assert_eq!(None, eval("a"));
    // results that are no numbers of the machine
    assert_eq!(None, eval("(1 - 2)"));
    assert_eq!(None, eval("(1 / 0)"));
    assert_eq!(
        None,
        eval("((((((((((9*9)*9)*9)*9)*9)*9)*9)*9)*9)*(((((((((9*9)*9)*9)*9)*9)*9)*9)*9)*9))")
    );
    // once stopped, never resumed
    assert_eq!(None, eval("(1 - 2) 5"));
}

#[test]
fn eval_nested() {
    assert_eq!(Some(45), eval("((1 + 2) * ((3 * 4) + (6 / 2)))"));
    assert_eq!(Some(0), eval("((5 - 5) * 9)"));
    assert_eq!(Some(2), eval("(5 / 2)"));
}

#[test]
fn operators() {
    assert_eq!(Some(Op::Plus), to_op('+'));
    assert_eq!(Some(Op::Minus), to_op('-'));
    assert_eq!(Some(Op::Multiply), to_op('*'));
    assert_eq!(Some(Op::Divide), to_op('/'));
    assert_eq!(None, to_op('%'));
    assert_eq!(7, apply_op(Op::Plus, 3, 4));
    assert_eq!(1, apply_op(Op::Minus, 4, 3));
    assert_eq!(12, apply_op(Op::Multiply, 3, 4));
    assert_eq!(3, apply_op(Op::Divide, 13, 4));
    assert!(can_apply(Op::Plus, u32::MAX, 0));
    assert!(!can_apply(Op::Plus, u32::MAX, 1));
    assert!(can_apply(Op::Minus, 3, 3));
    assert!(!can_apply(Op::Minus, 3, 4));
    assert!(can_apply(Op::Multiply, 65535, 65537));
    assert!(!can_apply(Op::Multiply, 65536, 65536));
    assert!(can_apply(Op::Divide, 0, 1));
    assert!(!can_apply(Op::Divide, 1, 0));
}
