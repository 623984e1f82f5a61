use bril_passes::blocks::{Block, BlockHelpers, FunctionHelpers, ToCode};
use bril_passes::form::{form_blocks, is_terminator};
use bril_passes::ir::{
    CheckOp, Code, EffectOps, Function, Instruction, Literal, SafeAccess, Type, ValueOps,
};
use bril_passes::labels::create_unique_label;

fn konst(dest: &str, value: i64) -> Instruction {
    Instruction::Constant {
        dest: dest.to_string(),
        const_type: Type::Int,
        value: Literal::Int(value),
    }
}

fn add(dest: &str, a: &str, b: &str) -> Instruction {
    Instruction::Value {
        dest: dest.to_string(),
        op_type: Type::Int,
        op: ValueOps::Add,
        args: vec![a.to_string(), b.to_string()],
        funcs: vec![],
        labels: vec![],
    }
}

fn effect(op: EffectOps, args: &[&str], labels: &[&str]) -> Instruction {
    Instruction::Effect {
        op,
        args: args.iter().map(|s| s.to_string()).collect(),
        funcs: vec![],
        labels: labels.iter().map(|s| s.to_string()).collect(),
    }
}

fn label(name: &str) -> Code {
    Code::Label { label: name.to_string() }
}

fn function(instrs: Vec<Code>) -> Function {
    Function { name: "main".to_string(), args: vec![], return_type: None, instrs }
}

#[test]
fn forms_one_anonymous_block() {
    let func = function(vec![Code::Instruction(konst("x", 1))]);
    let blocks = form_blocks(&func);
    assert_eq!(blocks.len(), 1);
    assert_eq!(blocks[0].label, "anon_block_0");
    assert_eq!(blocks[0].instrs, vec![konst("x", 1)]);
}

#[test]
fn empty_body_has_no_blocks() {
    let blocks = form_blocks(&function(vec![]));
    assert!(blocks.is_empty());
}

#[test]
fn label_starts_a_block_and_terminator_ends_one() {
    let func = function(vec![
        Code::Instruction(konst("x", 1)),
        Code::Instruction(effect(EffectOps::Jump, &[], &["next"])),
        Code::Instruction(konst("dead", 2)),
        label("next"),
        Code::Instruction(konst("y", 3)),
        label("last"),
        Code::Instruction(effect(EffectOps::Return, &[], &[])),
    ]);
    let blocks = form_blocks(&func);
    assert_eq!(blocks.len(), 4);
    assert_eq!(blocks[0].label, "anon_block_0");
    assert_eq!(blocks[0].instrs.len(), 2);
    assert_eq!(blocks[1].label, "anon_block_1");
    assert_eq!(blocks[1].instrs, vec![konst("dead", 2)]);
    assert_eq!(blocks[2].label, "next");
    assert_eq!(blocks[2].instrs, vec![konst("y", 3)]);
    assert_eq!(blocks[3].label, "last");
    assert_eq!(blocks[3].instrs.len(), 1);
}

#[test]
fn generated_labels_avoid_the_labels_of_the_body() {
    let func = function(vec![
        Code::Instruction(konst("x", 1)),
        Code::Instruction(effect(EffectOps::Jump, &[], &["anon_block_0"])),
        Code::Instruction(konst("y", 2)),
        Code::Instruction(effect(EffectOps::Jump, &[], &["anon_block_0"])),
        label("anon_block_0"),
        Code::Instruction(effect(EffectOps::Return, &[], &[])),
        label("anon_block_2"),
        Code::Instruction(konst("z", 3)),
    ]);
    let blocks = form_blocks(&func);
    let labels: Vec<&str> = blocks.iter().map(|b| b.label.as_str()).collect();
    assert_eq!(labels, vec!["anon_block_1", "anon_block_3", "anon_block_0", "anon_block_2"]);
}

#[test]
fn trailing_label_without_instructions_is_a_block() {
    let func = function(vec![Code::Instruction(konst("x", 1)), label("end")]);
    let blocks = form_blocks(&func);
    assert_eq!(blocks.len(), 2);
    assert_eq!(blocks[1].label, "end");
    assert!(blocks[1].instrs.is_empty());
}

#[test]
fn nothing_follows_a_final_terminator() {
    let func = function(vec![
        label("only"),
        Code::Instruction(effect(EffectOps::Return, &[], &[])),
    ]);
    let blocks = form_blocks(&func);
    assert_eq!(blocks.len(), 1);
}

#[test]
fn blocks_partition_the_instructions() {
    let body = vec![
        Code::Instruction(konst("a", 1)),
        label("l1"),
        Code::Instruction(add("b", "a", "a")),
        Code::Instruction(effect(EffectOps::Branch, &["b"], &["l1", "l2"])),
        Code::Instruction(konst("c", 2)),
        label("l2"),
        Code::Instruction(effect(EffectOps::Print, &["b"], &[])),
    ];
    let func = function(body.clone());
    let blocks = form_blocks(&func);
    let flat: Vec<Instruction> = blocks.iter().flat_map(|b| b.instrs.clone()).collect();
    let wanted: Vec<Instruction> = body
        .iter()
        .filter_map(|c| match c {
            Code::Instruction(i) => Some(i.clone()),
            Code::Label { .. } => None,
        })
        .collect();
    assert_eq!(flat, wanted);
    for block in &blocks {
        assert!(!block.label.is_empty());
        for instr in block.instrs.iter().rev().skip(1) {
            assert!(!is_terminator(instr));
        }
    }
}

#[test]
fn blocks_written_out_and_formed_again_are_the_same() {
    let func = function(vec![
        Code::Instruction(konst("a", 1)),
        Code::Instruction(effect(EffectOps::Jump, &[], &["l"])),
        label("l"),
        Code::Instruction(konst("b", 2)),
    ]);
    let blocks = form_blocks(&func);
    let code = blocks.to_code();
    assert_eq!(code.len(), 5);
    assert_eq!(code[0], label("anon_block_0"));
    let again = form_blocks(&function(code));
    assert_eq!(again, blocks);
}

#[test]
fn block_to_code_starts_with_its_label() {
    let block = Block { label: "b".to_string(), instrs: vec![konst("x", 1)] };
    assert_eq!(block.to_code(), vec![label("b"), Code::Instruction(konst("x", 1))]);
}

#[test]
fn block_defs_and_uses_are_listed_once_in_order() {
    let block = Block {
        label: "b".to_string(),
        instrs: vec![
            add("x", "p", "q"),
            add("y", "q", "x"),
            add("x", "y", "p"),
            effect(EffectOps::Print, &["x"], &[]),
        ],
    };
    assert_eq!(BlockHelpers::get_defs(&block), vec!["x".to_string(), "y".to_string()]);
    assert_eq!(
        BlockHelpers::get_uses(&block),
        vec!["p".to_string(), "q".to_string(), "x".to_string(), "y".to_string()]
    );
}

#[test]
fn function_defs_are_grouped_by_variable() {
    let blocks = vec![
        Block { label: "a".to_string(), instrs: vec![konst("x", 1), konst("y", 2)] },
        Block { label: "b".to_string(), instrs: vec![konst("y", 3)] },
        Block { label: "c".to_string(), instrs: vec![konst("x", 4), add("z", "x", "y")] },
    ];
    let defs = FunctionHelpers::get_defs(&blocks);
    assert_eq!(
        defs,
        vec![
            ("x".to_string(), vec![0, 2]),
            ("y".to_string(), vec![0, 1]),
            ("z".to_string(), vec![2]),
        ]
    );
    let uses = FunctionHelpers::get_uses(&blocks);
    assert_eq!(uses, vec![("x".to_string(), vec![2]), ("y".to_string(), vec![2])]);
}

#[test]
fn unique_label_is_the_least_free_one() {
    let mut counter: usize = 0;
    let used = vec!["anon_block_0".to_string(), "anon_block_1".to_string(), "x".to_string()];
    let got = create_unique_label(&mut counter, &used);
    assert_eq!(got, "anon_block_2");
    assert_eq!(counter, 2);
}

#[test]
fn unique_label_is_looked_for_from_the_counter_on() {
    let mut counter: usize = 5;
    let used = vec!["anon_block_5".to_string(), "anon_block_6".to_string(), "anon_block_8".to_string()];
    let got = create_unique_label(&mut counter, &used);
    assert_eq!(got, "anon_block_7");
    assert_eq!(counter, 7);
    let again = create_unique_label(&mut counter, &used);
    assert_eq!(again, "anon_block_7");
    assert_eq!(counter, 7);
    let mut high: usize = 3;
    assert_eq!(create_unique_label(&mut high, &Vec::new()), "anon_block_3");
    assert_eq!(high, 3);
}

#[test]
fn unique_label_counts_in_decimal() {
    let mut used: Vec<String> = Vec::new();
    let mut counter: usize = 0;
    for _ in 0..12 {
        let l = create_unique_label(&mut counter, &used);
        used.push(l);
    }
    assert_eq!(used[9], "anon_block_9");
    assert_eq!(used[10], "anon_block_10");
    assert_eq!(used[11], "anon_block_11");
}

#[test]
fn terminators_are_branch_jump_and_return() {
    assert!(is_terminator(&effect(EffectOps::Branch, &["c"], &["a", "b"])));
    assert!(is_terminator(&effect(EffectOps::Jump, &[], &["a"])));
    assert!(is_terminator(&effect(EffectOps::Return, &[], &[])));
    assert!(!is_terminator(&effect(EffectOps::Print, &["x"], &[])));
    assert!(!is_terminator(&konst("x", 1)));
}

#[test]
fn access_helpers_follow_the_variant() {
    let mut c = konst("x", 1);
    assert_eq!(c.get_dest(), Some("x".to_string()));
    assert_eq!(c.get_args(), None);
    assert_eq!(c.get_type(), Some(&Type::Int));
    assert!(c.is_const());
    assert!(!c.is_call());
    c.set_args(vec!["y".to_string()]);
    assert_eq!(c, konst("x", 1));
    c.set_dest("z".to_string());
    assert_eq!(c, konst("z", 1));

    let mut v = add("x", "a", "b");
    assert_eq!(v.get_args(), Some(vec!["a".to_string(), "b".to_string()]));
    v.set_args(vec!["c".to_string()]);
    assert_eq!(v.get_args(), Some(vec!["c".to_string()]));
    assert!(!v.is_const());

    let mut e = effect(EffectOps::Call, &["a"], &[]);
    assert_eq!(e.get_dest(), None);
    assert_eq!(e.get_type(), None);
    assert!(e.is_call());
    e.set_dest("x".to_string());
    assert_eq!(e, effect(EffectOps::Call, &["a"], &[]));
    e.set_args(vec![]);
    assert_eq!(e.get_args(), Some(vec![]));

    let call = Instruction::Value {
        dest: "r".to_string(),
        op_type: Type::Int,
        op: ValueOps::Call,
        args: vec![],
        funcs: vec!["f".to_string()],
        labels: vec![],
    };
    assert!(call.is_call());
}
