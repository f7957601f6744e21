use algebra_calculator::majorana::{EvalError, MajoranaExpr};
use algebra_calculator::mathtree::eval;
use algebra_calculator::tokenize::{tokenize, Token};

#[test]
fn scalar_sum() {
    let p = eval("1 + 2").unwrap();
    assert_eq!(p.render(), "(3+0i)");
    let c = p.get(0);
    assert!(c.re == 3 && c.im == 0);
    assert_eq!(p.term_count(), 1);
}

#[test]
fn anticommutation_cancels() {
    let p = eval("c0 c1 + c1 c0").unwrap();
    assert_eq!(p.render(), "0");
    assert_eq!(p.term_count(), 0);
}

#[test]
fn anticommutation_by_parts() {
    let p = eval("c3 c7").unwrap();
    let q = eval("c7 c3").unwrap();
    let s = p.add(&q).unwrap();
    assert_eq!(s.render(), "0");
    let c = p.get((1u64 << 3) | (1u64 << 7));
    let d = q.get((1u64 << 3) | (1u64 << 7));
    assert!(c.re == -d.re && c.im == -d.im);
}

#[test]
fn generator_squares_to_one() {
    let p = eval("c5 * c5").unwrap();
    assert_eq!(p.render(), "(1+0i)");
    let q = eval("c63 c63").unwrap();
    assert_eq!(q.render(), "(1+0i)");
}

#[test]
fn parenthesized_product() {
    let p = eval("(1 + 2)*3").unwrap();
    assert!(p.get(0).re == 9 && p.get(0).im == 0);
    assert_eq!(p.render(), "(9+0i)");
}

#[test]
fn two_cancelling_pairs() {
    let p = eval("c0 c1 c1 c0").unwrap();
    assert_eq!(p.render(), "(1+0i)");
    assert!(p.get(0).re == 1 && p.get(0).im == 0);
}

#[test]
fn render_round_trip_at_mapping_level() {
    let p = eval("(3 + 2i) c2 c5 + 4i + 7 c1").unwrap();
    let text = p.render();
    let q = eval(text.as_str()).unwrap();
    assert!(p.eq_poly(&q));
    assert_eq!(p.term_count(), q.term_count());
}

#[test]
fn multi_generator_atom_round_trip() {
    let p = eval("c2c10").unwrap();
    assert_eq!(p.render(), "(1+0i)c2c10");
    let q = eval("c10 c2").unwrap();
    assert_eq!(q.render(), "(-1+0i)c2c10");
    let r = eval(q.render().as_str()).unwrap();
    assert!(q.eq_poly(&r));
}

#[test]
fn complex_literals() {
    let p = eval("3-4i").unwrap();
    assert!(p.get(0).re == 3 && p.get(0).im == -4);
    assert_eq!(p.render(), "(3-4i)");
    let q = eval("-5").unwrap();
    assert!(q.get(0).re == -5 && q.get(0).im == 0);
    let r = eval("2i").unwrap();
    assert!(r.get(0).re == 0 && r.get(0).im == 2);
}

#[test]
fn zero_terms_are_pruned() {
    let p = eval("0").unwrap();
    assert_eq!(p.render(), "0");
    let q = eval("2 + -2").unwrap();
    assert_eq!(q.render(), "0");
    assert_eq!(q.term_count(), 0);
}

#[test]
fn unmatched_parens_recovered() {
    let p = eval("(1 + 2").unwrap();
    assert!(p.get(0).re == 3);
    let q = eval("1) + 2").unwrap();
    assert!(q.get(0).re == 1);
    assert_eq!(q.term_count(), 1);
}

#[test]
fn generator_out_of_range() {
    match eval("c64") {
        Err(EvalError::GeneratorOutOfRange(a)) => assert_eq!(a, "c64"),
        _ => panic!("expected a generator range error"),
    }
    match eval("c0 c99999999999999999999") {
        Err(EvalError::GeneratorOutOfRange(_)) => {},
        _ => panic!("expected a generator range error"),
    }
}

#[test]
fn malformed_atoms() {
    match eval("foo") {
        Err(EvalError::MalformedAtom(a)) => assert_eq!(a, "foo"),
        _ => panic!("expected a malformed atom error"),
    }
    match eval("1.5") {
        Err(EvalError::MalformedAtom(_)) => {},
        _ => panic!("expected a malformed atom error"),
    }
    match eval("c1c0") {
        Err(EvalError::MalformedAtom(_)) => {},
        _ => panic!("expected a malformed atom error"),
    }
}

#[test]
fn missing_operand() {
    match eval("2 *") {
        Err(EvalError::MissingOperand) => {},
        _ => panic!("expected a missing operand error"),
    }
}

#[test]
fn stray_operator() {
    match eval("1 + * 2") {
        Err(EvalError::StrayOperator) => {},
        _ => panic!("expected a stray operator error"),
    }
}

#[test]
fn coefficient_overflow() {
    match eval("9223372036854775807 + 1") {
        Err(EvalError::Overflow) => {},
        _ => panic!("expected overflow"),
    }
    match eval("3037000500 * 3037000500") {
        Err(EvalError::Overflow) => {},
        _ => panic!("expected overflow"),
    }
}

#[test]
fn stray_times_on_left_is_dropped() {
    let p = eval("* 3").unwrap();
    assert!(p.get(0).re == 3);
}

#[test]
fn terms_render_in_ascending_key_order() {
    let p = eval("c1 + c0").unwrap();
    assert_eq!(p.term_count(), 2);
    assert_eq!(p.term_at(0).key, 1);
    assert_eq!(p.term_at(1).key, 2);
    assert_eq!(p.render(), "(1+0i)c0 + (1+0i)c1");
}

#[test]
fn mul_is_sign_correct() {
    let a = eval("c0").unwrap();
    let b = eval("c1").unwrap();
    let ab = a.mul(&b).unwrap();
    let ba = b.mul(&a).unwrap();
    assert_eq!(ab.render(), "(1+0i)c0c1");
    assert_eq!(ba.render(), "(-1+0i)c0c1");
}

#[test]
fn complex_coefficient_product() {
    let p = eval("(2+3i)(4+5i)").unwrap();
    assert!(p.get(0).re == -7 && p.get(0).im == 22);
}

#[test]
fn empty_input_is_zero() {
    let p = eval("").unwrap();
    assert_eq!(p.render(), "0");
}

#[test]
fn new_and_from_str() {
    let z = MajoranaExpr::new();
    assert_eq!(z.render(), "0");
    let p = MajoranaExpr::from_str("3+4i").unwrap();
    assert!(p.get(0).re == 3 && p.get(0).im == 4);
    let g = MajoranaExpr::from_str("c2").unwrap();
    assert!(g.get(4).re == 1 && g.get(4).im == 0);
    assert!(MajoranaExpr::from_str("").is_err());
    assert!(MajoranaExpr::from_str("i").is_err());
}

#[test]
fn tokenize_splits_operators_and_atoms() {
    let toks = tokenize("(c0 + 12)*xy");
    assert_eq!(toks.len(), 7);
    assert!(matches!(toks[0], Token::OpenParen));
    assert_eq!(toks[1].to_str(), "c0");
    assert!(matches!(toks[2], Token::Plus));
    assert_eq!(toks[3].to_str(), "12");
    assert!(matches!(toks[4], Token::CloseParen));
    assert!(matches!(toks[5], Token::Times));
    assert_eq!(toks[6].to_str(), "xy");
    assert_eq!(Token::Plus.to_str(), "+");
    assert_eq!(Token::Times.to_str(), "*");
    assert_eq!(Token::OpenParen.to_str(), "(");
    assert_eq!(Token::CloseParen.to_str(), ")");
}

#[test]
fn nested_expression() {
    let p = eval("((1) (2*3 + 2*4) + 5) 2").unwrap();
    assert!(p.get(0).re == 38 && p.get(0).im == 0);
}

#[test]
fn distributes_over_addition() {
    let left = eval("c0 (c1 + c2)").unwrap();
    let right = eval("c0 c1 + c0 c2").unwrap();
    assert!(left.eq_poly(&right));
}

#[test]
fn addition_commutes_and_associates() {
    let ab = eval("(1+2i) c3 + c0 c1").unwrap();
    let ba = eval("c0 c1 + (1+2i) c3").unwrap();
    assert!(ab.eq_poly(&ba));
    let l = eval("(1 + 2) + 3i").unwrap();
    let r = eval("1 + (2 + 3i)").unwrap();
    assert!(l.eq_poly(&r));
}

#[test]
fn identity_multiplication() {
    let one = MajoranaExpr::one();
    let p = eval("(2+3i) c4 c9 + 7").unwrap();
    let lp = one.mul(&p).unwrap();
    let pr = p.mul(&one).unwrap();
    assert!(lp.eq_poly(&p));
    assert!(pr.eq_poly(&p));
}

#[test]
fn staged_pipeline_and_tree_text() {
    let toks = tokenize("(1 + 2)*3");
    let tree = algebra_calculator::mathtree::make_tree(toks);
    assert_eq!(tree.render(), "((1, +, 2), *, 3)");
    let prods = algebra_calculator::mathtree::make_products(&tree).unwrap();
    assert_eq!(prods.render(), "([(1, +, 2) * 3])");
    let expr = algebra_calculator::mathtree::make_mathexpr(&prods).unwrap();
    assert_eq!(expr.render(), "([((1+0i) + (2+0i)) * (3+0i)])");
    let p = expr.eval().unwrap();
    assert_eq!(p.render(), "(9+0i)");
}

#[test]
fn whitespace_separates_atoms() {
    let p = eval("1\t2").unwrap();
    assert!(p.get(0).re == 2 && p.get(0).im == 0);
    let q = eval("c0\nc1").unwrap();
    assert_eq!(q.render(), "(1+0i)c0c1");
    let r = eval(" 3 \t+\u{00A0}4 ").unwrap();
    assert!(r.get(0).re == 7 && r.get(0).im == 0);
    let toks = tokenize("a\tb c");
    assert_eq!(toks.len(), 3);
    assert_eq!(toks[0].to_str(), "a");
    assert_eq!(toks[1].to_str(), "b");
    assert_eq!(toks[2].to_str(), "c");
}

#[test]
fn more_round_trips_at_mapping_level() {
    for text in ["-3-4i", "c0 c1 + 1", "(0+2i) c63", "c5 c2 c9", "7 + c1 c2 c3"] {
        let p = eval(text).unwrap();
        let q = eval(p.render().as_str()).unwrap();
        assert!(p.eq_poly(&q));
    }
}
