use bril_passes::blocks::Block;
use bril_passes::dce::{
    eliminate_dead_code, find_used, regular_dce, regular_dce_block, trivial_dce,
    trivial_dce_block,
};
use bril_passes::ir::{Code, EffectOps, Function, Instruction, Literal, Type, ValueOps};

fn konst(dest: &str, value: i64) -> Instruction {
    Instruction::Constant {
        dest: dest.to_string(),
        const_type: Type::Int,
        value: Literal::Int(value),
    }
}

fn add(dest: &str, a: &str, b: &str) -> Instruction {
    Instruction::Value {
        dest: dest.to_string(),
        op_type: Type::Int,
        op: ValueOps::Add,
        args: vec![a.to_string(), b.to_string()],
        funcs: vec![],
        labels: vec![],
    }
}

fn print(arg: &str) -> Instruction {
    Instruction::Effect {
        op: EffectOps::Print,
        args: vec![arg.to_string()],
        funcs: vec![],
        labels: vec![],
    }
}

fn jmp(to: &str) -> Instruction {
    Instruction::Effect {
        op: EffectOps::Jump,
        args: vec![],
        funcs: vec![],
        labels: vec![to.to_string()],
    }
}

fn label(name: &str) -> Code {
    Code::Label { label: name.to_string() }
}

fn function(instrs: Vec<Code>) -> Function {
    Function { name: "main".to_string(), args: vec![], return_type: None, instrs }
}

fn code(instrs: Vec<Instruction>) -> Vec<Code> {
    instrs.into_iter().map(Code::Instruction).collect()
}

#[test]
fn used_variables_are_the_arguments() {
    let blocks = vec![
        Block { label: "a".to_string(), instrs: vec![konst("x", 1), add("y", "x", "z")] },
        Block { label: "b".to_string(), instrs: vec![print("y"), print("x")] },
    ];
    let mut used = find_used(&blocks);
    used.sort();
    assert_eq!(used, vec!["x".to_string(), "y".to_string(), "z".to_string()]);
}

#[test]
fn trivial_pass_removes_what_is_never_read() {
    let mut block = Block {
        label: "b".to_string(),
        instrs: vec![konst("x", 1), konst("y", 2), print("x")],
    };
    assert!(trivial_dce_block(&mut block, &vec!["x".to_string()]));
    assert_eq!(block.instrs, vec![konst("x", 1), print("x")]);
    assert!(!trivial_dce_block(&mut block, &vec!["x".to_string()]));
    assert_eq!(block.instrs, vec![konst("x", 1), print("x")]);
}

#[test]
fn trivial_pass_looks_at_the_whole_function() {
    let mut f = function(vec![
        Code::Instruction(konst("x", 1)),
        Code::Instruction(konst("dead", 2)),
        Code::Instruction(jmp("next")),
        label("next"),
        Code::Instruction(print("x")),
    ]);
    assert!(trivial_dce(&mut f));
    assert_eq!(
        f.instrs,
        vec![
            label("anon_block_0"),
            Code::Instruction(konst("x", 1)),
            Code::Instruction(jmp("next")),
            label("next"),
            Code::Instruction(print("x")),
        ]
    );
    assert!(!trivial_dce(&mut f));
}

#[test]
fn regular_pass_removes_what_is_overwritten_unread() {
    let mut block = Block {
        label: "b".to_string(),
        instrs: vec![konst("x", 1), konst("x", 2), print("x"), konst("x", 3), add("x", "x", "x")],
    };
    assert!(regular_dce_block(&mut block));
    assert_eq!(
        block.instrs,
        vec![konst("x", 2), print("x"), konst("x", 3), add("x", "x", "x")]
    );
    assert!(!regular_dce_block(&mut block));
}

#[test]
fn regular_pass_keeps_effects_and_last_writes() {
    let mut block = Block {
        label: "b".to_string(),
        instrs: vec![print("a"), konst("x", 1), print("b")],
    };
    assert!(!regular_dce_block(&mut block));
    assert_eq!(block.instrs, vec![print("a"), konst("x", 1), print("b")]);
}

#[test]
fn regular_pass_works_block_by_block() {
    let mut f = function(vec![
        label("a"),
        Code::Instruction(konst("x", 1)),
        label("b"),
        Code::Instruction(konst("x", 2)),
        Code::Instruction(konst("x", 3)),
    ]);
    assert!(regular_dce(&mut f));
    assert_eq!(
        f.instrs,
        vec![
            label("a"),
            Code::Instruction(konst("x", 1)),
            label("b"),
            Code::Instruction(konst("x", 3)),
        ]
    );
    assert!(!regular_dce(&mut f));
}

#[test]
fn elimination_runs_until_nothing_changes() {
    let mut functions = vec![
        function(code(vec![
            konst("a", 1),
            add("b", "a", "a"),
            add("c", "b", "b"),
            konst("d", 4),
            print("d"),
        ])),
        function(code(vec![konst("x", 1), konst("x", 2), print("x")])),
    ];
    eliminate_dead_code(&mut functions);
    assert_eq!(
        functions[0].instrs,
        vec![
            label("anon_block_0"),
            Code::Instruction(konst("d", 4)),
            Code::Instruction(print("d")),
        ]
    );
    assert_eq!(
        functions[1].instrs,
        vec![
            label("anon_block_0"),
            Code::Instruction(konst("x", 2)),
            Code::Instruction(print("x")),
        ]
    );
    let snapshot = functions.clone();
    for f in functions.iter_mut() {
        assert!(!trivial_dce(f));
        assert!(!regular_dce(f));
    }
    assert_eq!(functions, snapshot);
    eliminate_dead_code(&mut functions);
    assert_eq!(functions, snapshot);
}

#[test]
fn elimination_of_nothing_is_nothing() {
    let mut functions: Vec<Function> = vec![];
    eliminate_dead_code(&mut functions);
    assert!(functions.is_empty());
    let mut functions = vec![function(vec![])];
    eliminate_dead_code(&mut functions);
    assert!(functions[0].instrs.is_empty());
}
