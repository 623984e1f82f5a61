use bril_passes::cfg::{generate_cfg, CFGNode, CfgError, DataFlowHelpers, Edge, CFG};
use bril_passes::ir::{
    Argument, Code, EffectOps, Function, Instruction, Literal, Type, ValueOps,
};

fn konst(dest: &str, value: i64) -> Code {
    Code::Instruction(Instruction::Constant {
        dest: dest.to_string(),
        const_type: Type::Int,
        value: Literal::Int(value),
    })
}

fn add(dest: &str, a: &str, b: &str) -> Code {
    Code::Instruction(Instruction::Value {
        dest: dest.to_string(),
        op_type: Type::Int,
        op: ValueOps::Add,
        args: vec![a.to_string(), b.to_string()],
        funcs: vec![],
        labels: vec![],
    })
}

fn effect(op: EffectOps, args: &[&str], labels: &[&str]) -> Instruction {
    Instruction::Effect {
        op,
        args: args.iter().map(|s| s.to_string()).collect(),
        funcs: vec![],
        labels: labels.iter().map(|s| s.to_string()).collect(),
    }
}

fn jmp(to: &str) -> Code {
    Code::Instruction(effect(EffectOps::Jump, &[], &[to]))
}

fn br(cond: &str, t: &str, f: &str) -> Code {
    Code::Instruction(effect(EffectOps::Branch, &[cond], &[t, f]))
}

fn ret() -> Code {
    Code::Instruction(effect(EffectOps::Return, &[], &[]))
}

fn label(name: &str) -> Code {
    Code::Label { label: name.to_string() }
}

fn function(instrs: Vec<Code>) -> Function {
    Function { name: "main".to_string(), args: vec![], return_type: None, instrs }
}

fn cfg_of(instrs: Vec<Code>) -> CFG {
    generate_cfg(&function(instrs)).unwrap()
}

#[test]
fn jump_normalization() {
    let cfg = cfg_of(vec![konst("x", 1), add("y", "x", "x"), label("done"), ret()]);
    assert_eq!(cfg.blocks.len(), 2);
    assert_eq!(cfg.edge(CFGNode::Block(0), CFGNode::Block(1)), Some(Edge::Always));
    assert_eq!(cfg.successors(CFGNode::Block(0)), vec![CFGNode::Block(1)]);
    assert_eq!(cfg.blocks[0].instrs.len(), 3);
    assert_eq!(cfg.blocks[0].instrs[2], effect(EffectOps::Jump, &[], &["done"]));
    assert_eq!(cfg.edge(CFGNode::Block(1), CFGNode::Return), Some(Edge::Always));
}

#[test]
fn branch_edges() {
    let cfg = cfg_of(vec![
        konst("c", 1),
        br("c", "then", "else"),
        label("then"),
        jmp("end"),
        label("else"),
        jmp("end"),
        label("end"),
        ret(),
    ]);
    assert_eq!(cfg.edge(CFGNode::Block(0), CFGNode::Block(1)), Some(Edge::Bool(true)));
    assert_eq!(cfg.edge(CFGNode::Block(0), CFGNode::Block(2)), Some(Edge::Bool(false)));
    let mut out = cfg.successors(CFGNode::Block(0));
    out.sort();
    assert_eq!(out, vec![CFGNode::Block(1), CFGNode::Block(2)]);
    assert_eq!(cfg.blocks[1].label, "then");
    assert_eq!(cfg.blocks[2].label, "else");
}

#[test]
fn branch_with_one_target_has_one_edge() {
    let cfg = cfg_of(vec![konst("c", 1), br("c", "l", "l"), label("l"), ret()]);
    assert_eq!(cfg.successors(CFGNode::Block(0)), vec![CFGNode::Block(1)]);
    assert_eq!(cfg.edge(CFGNode::Block(0), CFGNode::Block(1)), Some(Edge::Bool(false)));
}

#[test]
fn last_block_gets_a_return() {
    let cfg = cfg_of(vec![konst("x", 1)]);
    assert_eq!(cfg.blocks[0].instrs.len(), 2);
    assert_eq!(cfg.blocks[0].instrs[1], effect(EffectOps::Return, &[], &[]));
    assert_eq!(cfg.edge(CFGNode::Block(0), CFGNode::Return), Some(Edge::Always));
    assert_eq!(cfg.predecessors(CFGNode::Return), vec![CFGNode::Block(0)]);
}

#[test]
fn every_block_has_an_edge_out() {
    let cfg = cfg_of(vec![
        label("a"),
        konst("c", 1),
        br("c", "b", "c"),
        label("b"),
        konst("x", 1),
        label("c"),
        jmp("a"),
        label("d"),
        konst("y", 2),
    ]);
    for i in 0..cfg.blocks.len() {
        assert!(!cfg.successors(CFGNode::Block(i)).is_empty());
    }
    let mut nodes = cfg.nodes();
    nodes.sort();
    assert_eq!(
        nodes,
        vec![
            CFGNode::Block(0),
            CFGNode::Block(1),
            CFGNode::Block(2),
            CFGNode::Block(3),
            CFGNode::Return
        ]
    );
    assert_eq!(cfg.edge(CFGNode::Block(1), CFGNode::Block(2)), Some(Edge::Always));
    assert_eq!(cfg.edge(CFGNode::Block(2), CFGNode::Block(0)), Some(Edge::Always));
    assert_eq!(cfg.edge(CFGNode::Block(3), CFGNode::Return), Some(Edge::Always));
    assert_eq!(cfg.edge(CFGNode::Block(0), CFGNode::Return), None);
}

#[test]
fn a_label_stands_for_the_last_block_that_has_it() {
    let cfg = cfg_of(vec![jmp("twice"), label("twice"), ret(), label("twice"), ret()]);
    assert_eq!(cfg.successors(CFGNode::Block(0)), vec![CFGNode::Block(2)]);
}

#[test]
fn unresolved_label_is_an_error() {
    let r = generate_cfg(&function(vec![konst("x", 1), jmp("nowhere")]));
    assert_eq!(
        r.err(),
        Some(CfgError::UnresolvedLabel { block: 0, label: "nowhere".to_string() })
    );
    let r = generate_cfg(&function(vec![label("a"), ret(), label("b"), br("c", "a", "z")]));
    assert_eq!(r.err(), Some(CfgError::UnresolvedLabel { block: 1, label: "z".to_string() }));
}

#[test]
fn missing_label_is_an_error() {
    let r = generate_cfg(&function(vec![Code::Instruction(effect(EffectOps::Jump, &[], &[]))]));
    assert_eq!(r.err(), Some(CfgError::MissingLabel { block: 0 }));
    let r = generate_cfg(&function(vec![
        label("a"),
        Code::Instruction(effect(EffectOps::Branch, &["c"], &["a"])),
    ]));
    assert_eq!(r.err(), Some(CfgError::MissingLabel { block: 0 }));
}

#[test]
fn empty_function_has_an_empty_graph() {
    let cfg = cfg_of(vec![]);
    assert!(cfg.blocks.is_empty());
    assert!(cfg.nodes().is_empty());
}

#[test]
fn arguments_are_kept() {
    let f = Function {
        name: "f".to_string(),
        args: vec![Argument { name: "n".to_string(), arg_type: Type::Int }],
        return_type: Some(Type::Int),
        instrs: vec![ret()],
    };
    let cfg = generate_cfg(&f).unwrap();
    assert_eq!(cfg.args, vec![Argument { name: "n".to_string(), arg_type: Type::Int }]);
}

#[test]
fn get_block_gives_the_block_of_a_node() {
    let mut cfg = cfg_of(vec![label("a"), ret()]);
    assert_eq!(cfg.get_block(CFGNode::Block(0)).map(|b| b.label.clone()), Some("a".to_string()));
    assert!(cfg.get_block(CFGNode::Block(1)).is_none());
    assert!(cfg.get_block(CFGNode::Return).is_none());
    if let Some(b) = cfg.get_block_mut(CFGNode::Block(0)) {
        b.label = "z".to_string();
    }
    assert_eq!(cfg.blocks[0].label, "z");
    assert!(cfg.get_block_mut(CFGNode::Return).is_none());
    assert_eq!(cfg.node_id(CFGNode::Return), 1);
    assert_eq!(cfg.node_at(0), CFGNode::Block(0));
    assert_eq!(cfg.node_at(1), CFGNode::Return);
}

#[test]
fn graph_defs_are_grouped_by_block_node() {
    let cfg = cfg_of(vec![konst("x", 1), jmp("l"), label("l"), add("x", "x", "x"), ret()]);
    assert_eq!(
        cfg.get_defs(),
        vec![("x".to_string(), vec![CFGNode::Block(0), CFGNode::Block(1)])]
    );
    assert_eq!(cfg.get_uses(), vec![("x".to_string(), vec![CFGNode::Block(1)])]);
}

#[test]
fn edge_weights_round_trip() {
    for e in [Edge::Always, Edge::Bool(false), Edge::Bool(true)] {
        assert_eq!(Edge::from_weight(e.to_weight()), e);
    }
}

#[test]
fn cloned_graph_is_equal() {
    let cfg = cfg_of(vec![konst("c", 1), br("c", "a", "b"), label("a"), ret(), label("b"), ret()]);
    let copy = cfg.clone();
    assert_eq!(copy.blocks, cfg.blocks);
    assert_eq!(copy.edge(CFGNode::Block(0), CFGNode::Block(2)), Some(Edge::Bool(false)));
    let mut nodes = copy.nodes();
    nodes.sort();
    assert_eq!(nodes.len(), 4);
}
