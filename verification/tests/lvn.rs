use bril_passes::blocks::Block;
use bril_passes::ir::{Code, EffectOps, Function, Instruction, Literal, Type, ValueOps};
use bril_passes::lvn::{apply_lvn, apply_lvn_block, get_last_writes, get_outside_vars};

fn konst(dest: &str, value: i64) -> Instruction {
    Instruction::Constant {
        dest: dest.to_string(),
        const_type: Type::Int,
        value: Literal::Int(value),
    }
}

fn boolean(dest: &str, value: bool) -> Instruction {
    Instruction::Constant {
        dest: dest.to_string(),
        const_type: Type::Bool,
        value: Literal::Bool(value),
    }
}

fn op(dest: &str, ty: Type, op: ValueOps, args: &[&str]) -> Instruction {
    Instruction::Value {
        dest: dest.to_string(),
        op_type: ty,
        op,
        args: args.iter().map(|s| s.to_string()).collect(),
        funcs: vec![],
        labels: vec![],
    }
}

fn add(dest: &str, a: &str, b: &str) -> Instruction {
    op(dest, Type::Int, ValueOps::Add, &[a, b])
}

fn id(dest: &str, from: &str) -> Instruction {
    op(dest, Type::Int, ValueOps::Id, &[from])
}

fn print(arg: &str) -> Instruction {
    Instruction::Effect {
        op: EffectOps::Print,
        args: vec![arg.to_string()],
        funcs: vec![],
        labels: vec![],
    }
}

fn lvn(instrs: Vec<Instruction>) -> Vec<Instruction> {
    let mut block = Block { label: "b".to_string(), instrs };
    apply_lvn_block(&mut block);
    assert_eq!(block.label, "b");
    block.instrs
}

#[test]
fn lvn_commoning() {
    let out = lvn(vec![konst("a", 1), konst("b", 1), add("c", "a", "b"), add("d", "b", "a")]);
    assert_eq!(out, vec![konst("a", 1), konst("b", 1), konst("c", 2), konst("d", 2)]);
}

#[test]
fn lvn_commons_equal_computations() {
    let out = lvn(vec![add("c", "a", "b"), add("d", "b", "a"), print("d")]);
    assert_eq!(out, vec![add("c", "a", "b"), id("d", "c"), print("c")]);
}

#[test]
fn lvn_does_not_common_what_does_not_commute() {
    let sub = |d: &str, a: &str, b: &str| op(d, Type::Int, ValueOps::Sub, &[a, b]);
    let out = lvn(vec![sub("c", "a", "b"), sub("d", "b", "a"), sub("e", "a", "b")]);
    assert_eq!(out, vec![sub("c", "a", "b"), sub("d", "b", "a"), id("e", "c")]);
}

#[test]
fn lvn_last_write_renaming() {
    let out = lvn(vec![konst("x", 1), add("y", "x", "x"), konst("x", 5), add("z", "x", "x")]);
    assert_eq!(
        out,
        vec![konst("lvn_temp_0", 1), konst("y", 2), konst("x", 5), konst("z", 10)]
    );
}

#[test]
fn lvn_rewires_reads_of_an_overwritten_variable() {
    let out = lvn(vec![add("x", "a", "b"), print("x"), add("x", "x", "c"), print("x")]);
    assert_eq!(
        out,
        vec![
            add("lvn_temp_0", "a", "b"),
            print("lvn_temp_0"),
            add("x", "lvn_temp_0", "c"),
            print("x"),
        ]
    );
}

#[test]
fn lvn_temporaries_are_numbered_in_order() {
    let out = lvn(vec![add("x", "a", "a"), add("x", "x", "a"), add("x", "x", "a")]);
    assert_eq!(
        out,
        vec![
            add("lvn_temp_0", "a", "a"),
            add("lvn_temp_1", "lvn_temp_0", "a"),
            add("x", "lvn_temp_1", "a"),
        ]
    );
}

#[test]
fn lvn_keeps_calls() {
    let call = |d: &str| Instruction::Value {
        dest: d.to_string(),
        op_type: Type::Int,
        op: ValueOps::Call,
        args: vec!["a".to_string()],
        funcs: vec!["f".to_string()],
        labels: vec![],
    };
    let out = lvn(vec![call("x"), call("y"), add("z", "x", "y")]);
    assert_eq!(out, vec![call("x"), call("y"), add("z", "x", "y")]);
}

#[test]
fn lvn_renames_the_arguments_of_calls_and_effects() {
    let call = |d: &str, a: &str| Instruction::Value {
        dest: d.to_string(),
        op_type: Type::Int,
        op: ValueOps::Call,
        args: vec![a.to_string()],
        funcs: vec!["f".to_string()],
        labels: vec![],
    };
    let out = lvn(vec![add("p", "a", "b"), add("q", "a", "b"), call("r", "q"), print("q")]);
    assert_eq!(out, vec![add("p", "a", "b"), id("q", "p"), call("r", "p"), print("p")]);
}

#[test]
fn lvn_follows_copies() {
    let out = lvn(vec![konst("a", 3), id("b", "a"), id("c", "b"), add("d", "c", "c")]);
    assert_eq!(out, vec![konst("a", 3), konst("b", 3), konst("c", 3), konst("d", 6)]);
}

#[test]
fn lvn_folds_booleans_and_comparisons() {
    let out = lvn(vec![
        konst("a", 3),
        konst("b", 4),
        op("lt", Type::Bool, ValueOps::Lt, &["a", "b"]),
        op("ge", Type::Bool, ValueOps::Ge, &["a", "b"]),
        op("both", Type::Bool, ValueOps::And, &["lt", "ge"]),
        op("not", Type::Bool, ValueOps::Not, &["both"]),
    ]);
    assert_eq!(
        out,
        vec![
            konst("a", 3),
            konst("b", 4),
            boolean("lt", true),
            boolean("ge", false),
            boolean("both", false),
            boolean("not", true),
        ]
    );
}

#[test]
fn lvn_does_not_rewrite_an_identity_that_is_no_constant() {
    let out = lvn(vec![konst("zero", 0), add("y", "x", "zero"), print("y")]);
    assert_eq!(out, vec![konst("zero", 0), add("y", "x", "zero"), print("y")]);
}

#[test]
fn lvn_treats_a_float_constant_given_by_an_integer_as_unknown() {
    let f = Instruction::Constant {
        dest: "f".to_string(),
        const_type: Type::Float,
        value: Literal::Int(1),
    };
    let out = lvn(vec![konst("i", 1), f.clone(), add("s", "i", "i")]);
    assert_eq!(out, vec![konst("i", 1), f, konst("s", 2)]);
}

#[test]
fn lvn_is_idempotent_on_these_blocks() {
    let blocks = vec![
        vec![konst("a", 1), konst("b", 1), add("c", "a", "b"), add("d", "b", "a")],
        vec![add("c", "a", "b"), add("d", "b", "a"), print("d")],
        vec![konst("x", 1), add("y", "x", "x"), konst("x", 5), add("z", "x", "x")],
        vec![add("x", "a", "b"), print("x"), add("x", "x", "c"), print("x")],
    ];
    for block in blocks {
        let once = lvn(block);
        let twice = lvn(once.clone());
        assert_eq!(twice, once);
    }
}

#[test]
fn a_second_run_may_read_another_copy() {
    let once = lvn(vec![add("a", "b", "x"), add("c", "x", "b"), id("b", "c")]);
    assert_eq!(once, vec![add("a", "b", "x"), id("c", "a"), id("b", "a")]);
    let twice = lvn(once.clone());
    assert_eq!(twice, vec![add("a", "b", "x"), id("c", "a"), id("b", "c")]);
}

#[test]
fn outside_variables_are_those_read_before_written() {
    let block = Block {
        label: "b".to_string(),
        instrs: vec![add("x", "p", "q"), add("y", "x", "p"), add("p", "r", "y"), print("p")],
    };
    assert_eq!(
        get_outside_vars(&block),
        vec!["p".to_string(), "q".to_string(), "r".to_string()]
    );
}

#[test]
fn a_variable_read_and_written_by_one_instruction_comes_from_outside() {
    let block = Block { label: "b".to_string(), instrs: vec![add("x", "x", "x")] };
    assert_eq!(get_outside_vars(&block), vec!["x".to_string()]);
}

#[test]
fn last_writes_are_flagged() {
    let block = Block {
        label: "b".to_string(),
        instrs: vec![konst("x", 1), konst("y", 2), print("x"), konst("x", 3)],
    };
    assert_eq!(get_last_writes(&block), vec![false, true, true, true]);
}

#[test]
fn lvn_of_a_function_works_block_by_block() {
    let mut f = Function {
        name: "main".to_string(),
        args: vec![],
        return_type: None,
        instrs: vec![
            Code::Instruction(konst("a", 1)),
            Code::Instruction(add("b", "a", "a")),
            Code::Label { label: "next".to_string() },
            Code::Instruction(add("c", "a", "a")),
        ],
    };
    apply_lvn(&mut f);
    assert_eq!(
        f.instrs,
        vec![
            Code::Label { label: "anon_block_0".to_string() },
            Code::Instruction(konst("a", 1)),
            Code::Instruction(konst("b", 2)),
            Code::Label { label: "next".to_string() },
            Code::Instruction(add("c", "a", "a")),
        ]
    );
}
