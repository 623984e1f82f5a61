use bril_passes::arith::divide;
use bril_passes::fold::{fold_one, fold_two, FLOAT_ONE};
use bril_passes::ir::{Instruction, Literal, Type, ValueOps};
use bril_passes::table::Table;
use bril_passes::value::Value;

fn num(x: i64) -> Value {
    Value::Constant(Literal::Int(x))
}

fn boolean(x: bool) -> Value {
    Value::Constant(Literal::Bool(x))
}

fn unknown(name: &str) -> Value {
    Value::Unknown(name.to_string())
}

fn operation(op: ValueOps, args: &[usize]) -> Value {
    Value::Operation { kind: Type::Int, op, args: args.to_vec() }
}

fn whole() -> Value {
    operation(ValueOps::Load, &[7, 8, 9])
}

#[test]
fn integer_constants_are_folded() {
    let w = whole();
    assert_eq!(fold_two(ValueOps::Add, &num(3), &num(4), &w), num(7));
    assert_eq!(fold_two(ValueOps::Sub, &num(3), &num(4), &w), num(-1));
    assert_eq!(fold_two(ValueOps::Mul, &num(3), &num(4), &w), num(12));
    assert_eq!(fold_two(ValueOps::Div, &num(13), &num(4), &w), num(3));
    assert_eq!(fold_two(ValueOps::Div, &num(-13), &num(4), &w), num(-3));
    assert_eq!(fold_two(ValueOps::Div, &num(13), &num(-4), &w), num(-3));
    assert_eq!(fold_two(ValueOps::Div, &num(-13), &num(-4), &w), num(3));
    assert_eq!(fold_two(ValueOps::Eq, &num(3), &num(3), &w), boolean(true));
    assert_eq!(fold_two(ValueOps::Eq, &num(3), &num(4), &w), boolean(false));
    assert_eq!(fold_two(ValueOps::Lt, &num(3), &num(4), &w), boolean(true));
    assert_eq!(fold_two(ValueOps::Le, &num(4), &num(4), &w), boolean(true));
    assert_eq!(fold_two(ValueOps::Gt, &num(3), &num(4), &w), boolean(false));
    assert_eq!(fold_two(ValueOps::Ge, &num(3), &num(4), &w), boolean(false));
}

#[test]
fn integer_folding_wraps() {
    let w = whole();
    assert_eq!(fold_two(ValueOps::Add, &num(i64::MAX), &num(1), &w), num(i64::MIN));
    assert_eq!(fold_two(ValueOps::Sub, &num(i64::MIN), &num(1), &w), num(i64::MAX));
    assert_eq!(fold_two(ValueOps::Mul, &num(i64::MAX), &num(2), &w), num(-2));
    assert_eq!(fold_two(ValueOps::Div, &num(i64::MIN), &num(-1), &w), num(i64::MIN));
    assert_eq!(fold_two(ValueOps::Div, &num(i64::MIN), &num(1), &w), num(i64::MIN));
    assert_eq!(fold_two(ValueOps::Div, &num(i64::MAX), &num(-1), &w), num(-i64::MAX));
}

#[test]
fn division_by_zero_is_not_folded() {
    let w = whole();
    assert_eq!(fold_two(ValueOps::Div, &num(3), &num(0), &w), w);
    assert_eq!(fold_two(ValueOps::Div, &num(0), &num(0), &w), w);
}

#[test]
fn division_rounds_towards_zero() {
    for (a, b) in [(7, 2), (-7, 2), (7, -2), (-7, -2), (0, 5), (i64::MAX, 3), (i64::MIN, 3)] {
        assert_eq!(divide(a, b), a.wrapping_div(b));
    }
    assert_eq!(divide(i64::MIN, -1), i64::MIN);
}

#[test]
fn identities_keep_the_other_operand() {
    let w = whole();
    let x = unknown("x");
    assert_eq!(fold_two(ValueOps::Add, &x, &num(0), &w), x);
    assert_eq!(fold_two(ValueOps::Add, &num(0), &x, &w), x);
    assert_eq!(fold_two(ValueOps::Sub, &x, &num(0), &w), x);
    assert_eq!(fold_two(ValueOps::Sub, &num(0), &x, &w), w);
    assert_eq!(fold_two(ValueOps::Mul, &x, &num(1), &w), x);
    assert_eq!(fold_two(ValueOps::Mul, &num(1), &x, &w), x);
    assert_eq!(fold_two(ValueOps::Mul, &x, &num(0), &w), num(0));
    assert_eq!(fold_two(ValueOps::Mul, &num(0), &x, &w), num(0));
    assert_eq!(fold_two(ValueOps::Div, &x, &num(1), &w), x);
    assert_eq!(fold_two(ValueOps::Div, &x, &x, &w), num(1));
    assert_eq!(fold_two(ValueOps::Div, &x, &unknown("y"), &w), w);
    assert_eq!(fold_two(ValueOps::Eq, &x, &x, &w), boolean(true));
    assert_eq!(fold_two(ValueOps::Eq, &x, &unknown("y"), &w), w);
    assert_eq!(fold_two(ValueOps::PtrAdd, &x, &num(0), &w), x);
    assert_eq!(fold_two(ValueOps::PtrAdd, &num(0), &x, &w), x);
    assert_eq!(fold_two(ValueOps::Add, &x, &num(5), &w), w);
    assert_eq!(fold_two(ValueOps::Lt, &x, &x, &w), w);
}

#[test]
fn booleans_fold_with_identity_and_dominance() {
    let w = whole();
    let x = unknown("x");
    assert_eq!(fold_two(ValueOps::And, &boolean(true), &boolean(false), &w), boolean(false));
    assert_eq!(fold_two(ValueOps::And, &boolean(true), &boolean(true), &w), boolean(true));
    assert_eq!(fold_two(ValueOps::Or, &boolean(false), &boolean(false), &w), boolean(false));
    assert_eq!(fold_two(ValueOps::Or, &boolean(true), &boolean(false), &w), boolean(true));
    assert_eq!(fold_two(ValueOps::And, &x, &boolean(true), &w), x);
    assert_eq!(fold_two(ValueOps::And, &boolean(true), &x, &w), x);
    assert_eq!(fold_two(ValueOps::And, &x, &boolean(false), &w), boolean(false));
    assert_eq!(fold_two(ValueOps::And, &boolean(false), &x, &w), boolean(false));
    assert_eq!(fold_two(ValueOps::Or, &x, &boolean(false), &w), x);
    assert_eq!(fold_two(ValueOps::Or, &boolean(false), &x, &w), x);
    assert_eq!(fold_two(ValueOps::Or, &x, &boolean(true), &w), boolean(true));
    assert_eq!(fold_two(ValueOps::Or, &boolean(true), &x, &w), boolean(true));
    assert_eq!(fold_one(ValueOps::Not, &boolean(true), &w), boolean(false));
    assert_eq!(fold_one(ValueOps::Not, &boolean(false), &w), boolean(true));
    assert_eq!(fold_one(ValueOps::Not, &x, &w), w);
    assert_eq!(fold_one(ValueOps::Id, &boolean(true), &w), w);
}

#[test]
fn floats_fold_by_their_bits() {
    let w = whole();
    let x = unknown("x");
    let float = |bits: u64| Value::Constant(Literal::Float(bits));
    let zero = float(0.0f64.to_bits());
    let minus_zero = float((-0.0f64).to_bits());
    let one = float(1.0f64.to_bits());
    let two = float(2.0f64.to_bits());
    assert_eq!(1.0f64.to_bits(), FLOAT_ONE);
    assert_eq!(fold_two(ValueOps::Fadd, &x, &zero, &w), x);
    assert_eq!(fold_two(ValueOps::Fadd, &x, &minus_zero, &w), x);
    assert_eq!(fold_two(ValueOps::Fadd, &zero, &x, &w), x);
    assert_eq!(fold_two(ValueOps::Fsub, &x, &zero, &w), x);
    assert_eq!(fold_two(ValueOps::Fsub, &zero, &x, &w), w);
    assert_eq!(fold_two(ValueOps::Fmul, &x, &one, &w), x);
    assert_eq!(fold_two(ValueOps::Fmul, &one, &x, &w), x);
    assert_eq!(fold_two(ValueOps::Fmul, &x, &two, &w), w);
    assert_eq!(fold_two(ValueOps::Fdiv, &x, &x, &w), one);
    assert_eq!(fold_two(ValueOps::Fadd, &one, &two, &w), w);
    assert_eq!(fold_two(ValueOps::Fdiv, &two, &two, &w), w);
}

#[test]
fn canonical_form_sorts_commutative_operands() {
    assert_eq!(
        operation(ValueOps::Add, &[3, 1, 2]).to_canonical(),
        operation(ValueOps::Add, &[1, 2, 3])
    );
    assert_eq!(operation(ValueOps::Mul, &[5, 0]).to_canonical(), operation(ValueOps::Mul, &[0, 5]));
    assert_eq!(operation(ValueOps::Sub, &[5, 0]).to_canonical(), operation(ValueOps::Sub, &[5, 0]));
    assert_eq!(unknown("x").to_canonical(), unknown("x"));
    assert!(operation(ValueOps::Add, &[1, 2]).same(&operation(ValueOps::Add, &[1, 2])));
    assert!(!operation(ValueOps::Add, &[1, 2]).same(&operation(ValueOps::Add, &[2, 1])));
    assert!(!num(1).same(&boolean(true)));
    let nan = Value::Constant(Literal::Float(f64::NAN.to_bits()));
    assert!(nan.same(&nan.clone()));
}

#[test]
fn table_registers_values_once() {
    let mut t = Table::new();
    assert_eq!(t.register_value(&num(1)), None);
    assert_eq!(t.register_value(&num(1)), None);
    t.add_binding(&"a".to_string(), &num(1));
    t.add_candidate(&"a".to_string(), &num(1));
    assert_eq!(t.register_value(&num(1)), Some("a".to_string()));
    assert_eq!(t.get_canonical(&num(1)), Some("a".to_string()));
    assert_eq!(t.get_canonical(&num(2)), None);
    assert_eq!(t.lookup(&"a".to_string()), Some("a".to_string()));
    assert_eq!(t.lookup(&"b".to_string()), None);
}

#[test]
fn table_bindings_are_kept_until_removed() {
    let mut t = Table::new();
    t.register_value(&num(1));
    t.register_value(&num(2));
    t.add_binding(&"a".to_string(), &num(1));
    t.add_candidate(&"a".to_string(), &num(1));
    t.add_candidate(&"z".to_string(), &num(2));
    t.add_binding(&"a".to_string(), &num(2));
    assert_eq!(t.lookup(&"a".to_string()), Some("a".to_string()));
    t.remove_binding(&"a".to_string());
    assert_eq!(t.lookup(&"a".to_string()), None);
    assert_eq!(t.get_canonical(&num(1)), None);
    t.add_binding(&"a".to_string(), &num(2));
    assert_eq!(t.lookup(&"a".to_string()), Some("z".to_string()));
    t.remove_binding(&"nothing".to_string());
    assert_eq!(t.lookup(&"a".to_string()), Some("z".to_string()));
}

#[test]
fn table_knows_unknown_values() {
    let mut t = Table::new();
    t.register_value(&unknown("p"));
    t.add_binding(&"p".to_string(), &unknown("p"));
    t.register_value(&num(1));
    t.add_binding(&"c".to_string(), &num(1));
    assert!(t.check_unknown(&"p".to_string()));
    assert!(!t.check_unknown(&"c".to_string()));
    assert!(!t.check_unknown(&"q".to_string()));
}

#[test]
fn simplify_follows_the_table() {
    let mut t = Table::new();
    t.register_value(&num(2));
    t.register_value(&num(3));
    t.register_value(&operation(ValueOps::Mul, &[0, 1]));
    t.register_value(&operation(ValueOps::Id, &[2]));
    t.register_value(&unknown("x"));
    assert_eq!(t.simplify(&operation(ValueOps::Add, &[2, 3])), num(12));
    assert_eq!(t.simplify(&operation(ValueOps::Id, &[3])), num(6));
    assert_eq!(t.simplify(&operation(ValueOps::Id, &[4])), unknown("x"));
    assert_eq!(t.simplify(&operation(ValueOps::Add, &[4, 0])), operation(ValueOps::Add, &[4, 0]));
    assert_eq!(t.simplify(&operation(ValueOps::Add, &[0, 9])), operation(ValueOps::Add, &[0, 9]));
    assert_eq!(t.simplify(&operation(ValueOps::Id, &[])), operation(ValueOps::Id, &[]));
    assert_eq!(t.simplify(&num(5)), num(5));
    assert_eq!(t.simplify(&unknown("y")), unknown("y"));
    let not = Value::Operation { kind: Type::Bool, op: ValueOps::Not, args: vec![0] };
    assert_eq!(t.simplify(&not), not);
}

#[test]
fn simplify_follows_a_copy_to_a_later_value() {
    let mut t = Table::new();
    t.register_value(&operation(ValueOps::Id, &[1]));
    t.register_value(&num(7));
    t.register_value(&num(0));
    t.register_value(&num(1));
    assert_eq!(t.simplify(&operation(ValueOps::Id, &[0])), num(7));
    assert_eq!(t.simplify(&operation(ValueOps::Id, &[1])), num(7));
    assert_eq!(t.simplify(&operation(ValueOps::Add, &[0, 2])), num(7));
    assert_eq!(t.simplify(&operation(ValueOps::Add, &[2, 0])), num(7));
    assert_eq!(t.simplify(&operation(ValueOps::Sub, &[0, 2])), num(7));
    assert_eq!(t.simplify(&operation(ValueOps::Mul, &[0, 3])), num(7));
    assert_eq!(t.simplify(&operation(ValueOps::Mul, &[3, 0])), num(7));
    assert_eq!(t.simplify(&operation(ValueOps::Div, &[0, 3])), num(7));
    assert_eq!(t.simplify(&operation(ValueOps::Add, &[0, 0])), num(14));
}

#[test]
fn simplify_follows_a_chain_through_the_whole_table() {
    let mut t = Table::new();
    t.register_value(&operation(ValueOps::Id, &[1]));
    t.register_value(&operation(ValueOps::Id, &[2]));
    t.register_value(&operation(ValueOps::Id, &[3]));
    t.register_value(&unknown("x"));
    assert_eq!(t.simplify(&operation(ValueOps::Id, &[0])), unknown("x"));
    assert_eq!(t.simplify(&operation(ValueOps::Add, &[0, 1])), operation(ValueOps::Add, &[0, 1]));
    assert_eq!(t.simplify(&operation(ValueOps::Eq, &[0, 2])), Value::Constant(Literal::Bool(true)));
}

#[test]
fn simplify_comes_to_an_end_where_values_lead_back_to_themselves() {
    let mut t = Table::new();
    t.register_value(&operation(ValueOps::Id, &[0]));
    assert_eq!(t.simplify(&operation(ValueOps::Id, &[0])), operation(ValueOps::Id, &[0]));
    t.register_value(&operation(ValueOps::Id, &[2]));
    t.register_value(&operation(ValueOps::Id, &[1]));
    assert_eq!(t.simplify(&operation(ValueOps::Id, &[1])), operation(ValueOps::Id, &[2]));
}

#[test]
fn create_value_numbers_the_arguments() {
    let mut t = Table::new();
    t.register_value(&unknown("a"));
    t.add_binding(&"a".to_string(), &unknown("a"));
    t.register_value(&unknown("b"));
    t.add_binding(&"b".to_string(), &unknown("b"));
    let add = |args: &[&str]| Instruction::Value {
        dest: "x".to_string(),
        op_type: Type::Int,
        op: ValueOps::Add,
        args: args.iter().map(|s| s.to_string()).collect(),
        funcs: vec![],
        labels: vec![],
    };
    assert_eq!(t.create_value(&add(&["b", "a"])), Some(operation(ValueOps::Add, &[1, 0])));
    assert_eq!(t.create_value(&add(&["b", "c"])), None);
    let alloc = Instruction::Value {
        dest: "p".to_string(),
        op_type: Type::Pointer(Box::new(Type::Int)),
        op: ValueOps::Alloc,
        args: vec!["a".to_string()],
        funcs: vec![],
        labels: vec![],
    };
    assert_eq!(t.create_value(&alloc), Some(unknown("p")));
    let c = Instruction::Constant {
        dest: "k".to_string(),
        const_type: Type::Bool,
        value: Literal::Bool(true),
    };
    assert_eq!(t.create_value(&c), Some(boolean(true)));
    let f = Instruction::Constant {
        dest: "f".to_string(),
        const_type: Type::Float,
        value: Literal::Int(2),
    };
    assert_eq!(t.create_value(&f), Some(unknown("f")));
    let e = Instruction::Effect {
        op: bril_passes::ir::EffectOps::Print,
        args: vec!["a".to_string()],
        funcs: vec![],
        labels: vec![],
    };
    assert_eq!(t.create_value(&e), None);
}
