use bril_passes::bril2ssa::SSAConverter;
use bril_passes::cfg::{generate_cfg, CFGNode, CFG};
use bril_passes::dom::DominatorUtil;
use bril_passes::ir::{
    Argument, Code, EffectOps, Function, Instruction, Literal, Type, ValueOps,
};
use bril_passes::phi::Phi;
use bril_passes::ssa::{convert_from_ssa, convert_to_ssa, convert_with_dominance};
use bril_passes::ssa2bril::{remove_phi_nodes, DefaultValue};
use bril_passes::stack::{VariableCounter, VariableStack};

fn konst(dest: &str, value: i64) -> Instruction {
    Instruction::Constant {
        dest: dest.to_string(),
        const_type: Type::Int,
        value: Literal::Int(value),
    }
}

fn op(dest: &str, ty: Type, op: ValueOps, args: &[&str]) -> Instruction {
    Instruction::Value {
        dest: dest.to_string(),
        op_type: ty,
        op,
        args: args.iter().map(|s| s.to_string()).collect(),
        funcs: vec![],
        labels: vec![],
    }
}

fn phi(dest: &str, ty: Type, args: &[&str], labels: &[&str]) -> Instruction {
    Instruction::Value {
        dest: dest.to_string(),
        op_type: ty,
        op: ValueOps::Phi,
        args: args.iter().map(|s| s.to_string()).collect(),
        funcs: vec![],
        labels: labels.iter().map(|s| s.to_string()).collect(),
    }
}

fn effect(op: EffectOps, args: &[&str], labels: &[&str]) -> Instruction {
    Instruction::Effect {
        op,
        args: args.iter().map(|s| s.to_string()).collect(),
        funcs: vec![],
        labels: labels.iter().map(|s| s.to_string()).collect(),
    }
}

fn label(name: &str) -> Code {
    Code::Label { label: name.to_string() }
}

fn simple_loop() -> CFG {
    let body = vec![
        Code::Instruction(konst("i", 0)),
        Code::Instruction(effect(EffectOps::Jump, &[], &["header"])),
        label("header"),
        Code::Instruction(op("cond", Type::Bool, ValueOps::Lt, &["i", "n"])),
        Code::Instruction(effect(EffectOps::Branch, &["cond"], &["body", "exit"])),
        label("body"),
        Code::Instruction(konst("one", 1)),
        Code::Instruction(op("i", Type::Int, ValueOps::Add, &["i", "one"])),
        Code::Instruction(effect(EffectOps::Jump, &[], &["header"])),
        label("exit"),
        Code::Instruction(effect(EffectOps::Print, &["i"], &[])),
        Code::Instruction(effect(EffectOps::Return, &[], &[])),
    ];
    let f = Function {
        name: "main".to_string(),
        args: vec![Argument { name: "n".to_string(), arg_type: Type::Int }],
        return_type: None,
        instrs: body,
    };
    generate_cfg(&f).unwrap()
}

#[test]
fn ssa_of_a_simple_loop() {
    let cfg = simple_loop();
    let ssa = convert_to_ssa(&cfg);
    assert_eq!(ssa.blocks.len(), 4);
    assert_eq!(
        ssa.blocks[0].instrs,
        vec![konst("i.0", 0), effect(EffectOps::Jump, &[], &["header"])]
    );
    assert_eq!(
        ssa.blocks[1].instrs,
        vec![
            phi("one.0", Type::Int, &["undefined", "one.1"], &["anon_block_0", "body"]),
            phi("i.1", Type::Int, &["i.0", "i.2"], &["anon_block_0", "body"]),
            phi("cond.0", Type::Bool, &["undefined", "cond.1"], &["anon_block_0", "body"]),
            op("cond.1", Type::Bool, ValueOps::Lt, &["i.1", "n"]),
            effect(EffectOps::Branch, &["cond.1"], &["body", "exit"]),
        ]
    );
    assert_eq!(
        ssa.blocks[2].instrs,
        vec![
            konst("one.1", 1),
            op("i.2", Type::Int, ValueOps::Add, &["i.1", "one.1"]),
            effect(EffectOps::Jump, &[], &["header"]),
        ]
    );
    assert_eq!(
        ssa.blocks[3].instrs,
        vec![effect(EffectOps::Print, &["i.1"], &[]), effect(EffectOps::Return, &[], &[])]
    );
}

#[test]
fn ssa_defines_every_name_once() {
    let ssa = convert_to_ssa(&simple_loop());
    let mut seen: Vec<String> = Vec::new();
    for block in &ssa.blocks {
        for instr in &block.instrs {
            let dest = match instr {
                Instruction::Constant { dest, .. } => Some(dest.clone()),
                Instruction::Value { dest, .. } => Some(dest.clone()),
                Instruction::Effect { .. } => None,
            };
            if let Some(d) = dest {
                assert!(!seen.contains(&d));
                seen.push(d);
            }
        }
    }
    assert_eq!(seen.len(), 7);
}

fn written(instr: &Instruction) -> Option<String> {
    match instr {
        Instruction::Constant { dest, .. } => Some(dest.clone()),
        Instruction::Value { dest, .. } => Some(dest.clone()),
        Instruction::Effect { .. } => None,
    }
}

fn read(instr: &Instruction) -> Vec<String> {
    match instr {
        Instruction::Constant { .. } => vec![],
        Instruction::Value { args, .. } => args.clone(),
        Instruction::Effect { args, .. } => args.clone(),
    }
}

#[test]
fn ssa_operands_are_defined_on_the_way() {
    let cfg = simple_loop();
    let dom = cfg.find_dominators();
    let ssa = convert_with_dominance(&cfg, &dom);
    let mut checked: usize = 0;
    for (x, block) in ssa.blocks.iter().enumerate() {
        for (i, instr) in block.instrs.iter().enumerate() {
            if matches!(instr, Instruction::Value { op: ValueOps::Phi, .. }) {
                continue;
            }
            for a in read(instr) {
                let earlier = block.instrs[..i].iter().any(|e| written(e) == Some(a.clone()));
                let above = dom.dominators[x].iter().any(|&d| {
                    d != x && ssa.blocks[d].instrs.iter().any(|e| written(e) == Some(a.clone()))
                });
                assert!(a == "n" || earlier || above, "{a} in block {x}");
                checked += 1;
            }
        }
    }
    assert_eq!(checked, 6);
}

#[test]
fn out_of_ssa_copies_at_the_ends_of_the_predecessors() {
    let ssa = convert_to_ssa(&simple_loop());
    let out = convert_from_ssa(&ssa);
    assert_eq!(
        out.blocks[0].instrs,
        vec![
            konst("i.0", 0),
            konst("one.0", 0),
            op("i.1", Type::Int, ValueOps::Id, &["i.0"]),
            Instruction::Constant {
                dest: "cond.0".to_string(),
                const_type: Type::Bool,
                value: Literal::Bool(false),
            },
            effect(EffectOps::Jump, &[], &["header"]),
        ]
    );
    assert_eq!(
        out.blocks[1].instrs,
        vec![
            op("cond.1", Type::Bool, ValueOps::Lt, &["i.1", "n"]),
            effect(EffectOps::Branch, &["cond.1"], &["body", "exit"]),
        ]
    );
    assert_eq!(
        out.blocks[2].instrs,
        vec![
            konst("one.1", 1),
            op("i.2", Type::Int, ValueOps::Add, &["i.1", "one.1"]),
            op("one.0", Type::Int, ValueOps::Id, &["one.1"]),
            op("i.1", Type::Int, ValueOps::Id, &["i.2"]),
            op("cond.0", Type::Bool, ValueOps::Id, &["cond.1"]),
            effect(EffectOps::Jump, &[], &["header"]),
        ]
    );
    assert_eq!(out.blocks[3].instrs, ssa.blocks[3].instrs);
    for block in &out.blocks {
        for instr in &block.instrs {
            assert!(!matches!(instr, Instruction::Value { op: ValueOps::Phi, .. }));
        }
    }
}

#[test]
fn straight_line_code_gets_no_phi() {
    let f = Function {
        name: "main".to_string(),
        args: vec![Argument { name: "a".to_string(), arg_type: Type::Int }],
        return_type: None,
        instrs: vec![
            Code::Instruction(op("x", Type::Int, ValueOps::Add, &["a", "a"])),
            Code::Instruction(op("x", Type::Int, ValueOps::Add, &["x", "a"])),
            Code::Instruction(op("a", Type::Int, ValueOps::Add, &["x", "u"])),
            Code::Instruction(effect(EffectOps::Print, &["a"], &[])),
        ],
    };
    let cfg = generate_cfg(&f).unwrap();
    let ssa = convert_to_ssa(&cfg);
    assert_eq!(
        ssa.blocks[0].instrs,
        vec![
            op("x.0", Type::Int, ValueOps::Add, &["a", "a"]),
            op("x.1", Type::Int, ValueOps::Add, &["x.0", "a"]),
            op("a.0", Type::Int, ValueOps::Add, &["x.1", "u"]),
            effect(EffectOps::Print, &["a.0"], &[]),
            effect(EffectOps::Return, &[], &[]),
        ]
    );
}

#[test]
fn a_diamond_gets_a_phi_at_the_join() {
    let f = Function {
        name: "main".to_string(),
        args: vec![Argument { name: "c".to_string(), arg_type: Type::Bool }],
        return_type: None,
        instrs: vec![
            Code::Instruction(effect(EffectOps::Branch, &["c"], &["left", "right"])),
            label("left"),
            Code::Instruction(konst("x", 1)),
            Code::Instruction(effect(EffectOps::Jump, &[], &["join"])),
            label("right"),
            Code::Instruction(konst("x", 2)),
            Code::Instruction(effect(EffectOps::Jump, &[], &["join"])),
            label("join"),
            Code::Instruction(effect(EffectOps::Print, &["x"], &[])),
        ],
    };
    let cfg = generate_cfg(&f).unwrap();
    let dom = cfg.find_dominators();
    let ssa = convert_with_dominance(&cfg, &dom);
    assert_eq!(
        ssa.blocks[3].instrs,
        vec![
            phi("x.2", Type::Int, &["x.0", "x.1"], &["left", "right"]),
            effect(EffectOps::Print, &["x.2"], &[]),
            effect(EffectOps::Return, &[], &[]),
        ]
    );
    assert_eq!(ssa.blocks[1].instrs[0], konst("x.0", 1));
    assert_eq!(ssa.blocks[2].instrs[0], konst("x.1", 2));
    let out = convert_from_ssa(&ssa);
    assert_eq!(
        out.blocks[1].instrs,
        vec![
            konst("x.0", 1),
            op("x.2", Type::Int, ValueOps::Id, &["x.0"]),
            effect(EffectOps::Jump, &[], &["join"]),
        ]
    );
    assert_eq!(
        out.blocks[2].instrs,
        vec![
            konst("x.1", 2),
            op("x.2", Type::Int, ValueOps::Id, &["x.1"]),
            effect(EffectOps::Jump, &[], &["join"]),
        ]
    );
}

#[test]
fn phi_nodes_are_placed_on_the_iterated_frontier() {
    let cfg = simple_loop();
    let dom = cfg.find_dominators();
    let converter = SSAConverter::new(cfg);
    assert_eq!(
        converter.variables(),
        vec!["one".to_string(), "n".to_string(), "i".to_string(), "cond".to_string()]
    );
    assert_eq!(converter.defining_nodes(&"i".to_string()), vec![true, false, true, false, false]);
    assert_eq!(converter.defining_nodes(&"n".to_string()), vec![true, false, false, false, false]);
    assert_eq!(converter.variable_type(&"cond".to_string()), Type::Bool);
    assert_eq!(converter.variable_type(&"n".to_string()), Type::Int);
    assert_eq!(
        converter.labels_into(1),
        vec!["anon_block_0".to_string(), "body".to_string()]
    );
    let phis = converter.make_phi_nodes(&dom.dominance_frontier);
    assert_eq!(phis.len(), 5);
    assert!(phis[0].is_empty());
    assert!(phis[2].is_empty());
    assert!(phis[3].is_empty());
    assert!(phis[4].is_empty());
    let names: Vec<&str> = phis[1].iter().map(|p| p.canonical.as_str()).collect();
    assert_eq!(names, vec!["one", "i", "cond"]);
    assert_eq!(phis[1][1].dest, None);
    assert_eq!(phis[1][1].args, vec![None, None]);
    assert_eq!(phis[1][1].op_type, Type::Int);
}

#[test]
fn renaming_fills_the_phi_nodes() {
    let cfg = simple_loop();
    let dom = cfg.find_dominators();
    let mut converter = SSAConverter::new(cfg);
    let mut phis = converter.make_phi_nodes(&dom.dominance_frontier);
    converter.rename(CFGNode::Block(0), &mut phis, &dom.dominator_tree);
    assert_eq!(phis[1][1].dest, Some("i.1".to_string()));
    assert_eq!(phis[1][1].args, vec![Some("i.0".to_string()), Some("i.2".to_string())]);
    assert_eq!(phis[1][0].args, vec![None, Some("one.1".to_string())]);
    assert_eq!(converter.stack.get_last(&"i".to_string()), None);
    assert_eq!(converter.stack.get_last(&"n".to_string()), Some("n".to_string()));
    assert_eq!(converter.counter.inc("i".to_string()), 3);
    converter.insert_phi_nodes(&phis);
    assert_eq!(converter.cfg.blocks[1].instrs.len(), 5);
}

#[test]
fn a_block_without_a_row_of_phi_nodes_is_renamed() {
    let f = Function {
        name: "main".to_string(),
        args: vec![],
        return_type: None,
        instrs: vec![
            Code::Instruction(konst("x", 1)),
            Code::Instruction(op("y", Type::Int, ValueOps::Add, &["x", "x"])),
        ],
    };
    let cfg = generate_cfg(&f).unwrap();
    let dom = cfg.find_dominators();
    let mut converter = SSAConverter::new(cfg);
    let mut phis: Vec<Vec<Phi>> = Vec::new();
    converter.rename(CFGNode::Block(0), &mut phis, &dom.dominator_tree);
    assert!(phis.is_empty());
    assert_eq!(
        converter.cfg.blocks[0].instrs,
        vec![
            konst("x.0", 1),
            op("y.0", Type::Int, ValueOps::Add, &["x.0", "x.0"]),
            effect(EffectOps::Return, &[], &[]),
        ]
    );
    assert_eq!(converter.stack.get_last(&"x".to_string()), None);
}

#[test]
fn renaming_from_the_sink_changes_nothing() {
    let cfg = simple_loop();
    let dom = cfg.find_dominators();
    let mut converter = SSAConverter::new(cfg.clone());
    let mut phis = converter.make_phi_nodes(&dom.dominance_frontier);
    converter.rename(CFGNode::Return, &mut phis, &dom.dominator_tree);
    assert_eq!(converter.cfg.blocks, cfg.blocks);
    assert_eq!(phis[1][1].dest, None);
}

#[test]
fn phi_becomes_an_instruction() {
    let mut p = Phi::new("x".to_string(), Type::Int, vec!["a".to_string(), "b".to_string()]);
    assert_eq!(p.to_instr(), phi("", Type::Int, &["undefined", "undefined"], &["a", "b"]));
    p.dest = Some("x.3".to_string());
    p.args[1] = Some("x.2".to_string());
    assert_eq!(p.to_instr(), phi("x.3", Type::Int, &["undefined", "x.2"], &["a", "b"]));
}

#[test]
fn default_values_by_type() {
    let d = |t: Type| t.generate_default("v".to_string());
    let c = |t: Type, l: Literal| Instruction::Constant {
        dest: "v".to_string(),
        const_type: t,
        value: l,
    };
    assert_eq!(d(Type::Int), c(Type::Int, Literal::Int(0)));
    assert_eq!(d(Type::Bool), c(Type::Bool, Literal::Bool(false)));
    assert_eq!(d(Type::Float), c(Type::Float, Literal::Float(0.0f64.to_bits())));
    assert_eq!(d(Type::Char), c(Type::Char, Literal::Char('\0')));
    let ptr = Type::Pointer(Box::new(Type::Int));
    assert_eq!(d(ptr.clone()), c(ptr, Literal::Int(0)));
}

#[test]
fn phi_in_the_first_block_is_removed_without_copies() {
    let f = Function {
        name: "main".to_string(),
        args: vec![],
        return_type: None,
        instrs: vec![
            label("top"),
            Code::Instruction(phi("x", Type::Int, &["y"], &["top"])),
            Code::Instruction(effect(EffectOps::Jump, &[], &["top"])),
        ],
    };
    let mut cfg = generate_cfg(&f).unwrap();
    remove_phi_nodes(&mut cfg);
    assert_eq!(cfg.blocks[0].instrs, vec![effect(EffectOps::Jump, &[], &["top"])]);
}

#[test]
fn a_phi_without_a_slot_for_a_predecessor_gives_that_predecessor_nothing() {
    let f = Function {
        name: "main".to_string(),
        args: vec![],
        return_type: None,
        instrs: vec![
            label("a"),
            Code::Instruction(effect(EffectOps::Jump, &[], &["b"])),
            label("b"),
            Code::Instruction(phi("x", Type::Int, &["y"], &["elsewhere"])),
            Code::Instruction(effect(EffectOps::Return, &[], &[])),
        ],
    };
    let mut cfg = generate_cfg(&f).unwrap();
    remove_phi_nodes(&mut cfg);
    assert_eq!(cfg.blocks[0].instrs, vec![effect(EffectOps::Jump, &[], &["b"])]);
    assert_eq!(cfg.blocks[1].instrs, vec![effect(EffectOps::Return, &[], &[])]);
}

#[test]
fn variable_stack_pushes_and_pops() {
    let mut s = VariableStack::new(&vec!["a".to_string(), "b".to_string()]);
    assert_eq!(s.get_last(&"a".to_string()), Some("a".to_string()));
    assert_eq!(s.get_last(&"c".to_string()), None);
    s.push(&"a".to_string(), "a.0".to_string());
    s.push(&"a".to_string(), "a.1".to_string());
    s.push(&"c".to_string(), "c.0".to_string());
    assert_eq!(s.get_last(&"a".to_string()), Some("a.1".to_string()));
    assert_eq!(s.get_last(&"c".to_string()), Some("c.0".to_string()));
    s.pop(&"a".to_string(), 1);
    assert_eq!(s.get_last(&"a".to_string()), Some("a.0".to_string()));
    s.pop(&"a".to_string(), 5);
    assert_eq!(s.get_last(&"a".to_string()), None);
    s.pop(&"zzz".to_string(), 1);
    s.pop(&"b".to_string(), 0);
    assert_eq!(s.get_last(&"b".to_string()), Some("b".to_string()));
}

#[test]
fn variable_counter_counts_each_variable() {
    let mut c = VariableCounter::new();
    assert_eq!(c.inc("x".to_string()), 0);
    assert_eq!(c.inc("x".to_string()), 1);
    assert_eq!(c.inc("y".to_string()), 0);
    assert_eq!(c.inc("x".to_string()), 2);
    assert_eq!(c.inc("y".to_string()), 1);
}
