use bril_passes::cfg::{generate_cfg, CFG};
use bril_passes::dom::{reverse_postorder, DominatorUtil};
use bril_passes::graph::Graph;
use bril_passes::ir::{Code, EffectOps, Function, Instruction, Literal, Type};

fn konst(dest: &str, value: i64) -> Code {
    Code::Instruction(Instruction::Constant {
        dest: dest.to_string(),
        const_type: Type::Int,
        value: Literal::Int(value),
    })
}

fn effect(op: EffectOps, args: &[&str], labels: &[&str]) -> Code {
    Code::Instruction(Instruction::Effect {
        op,
        args: args.iter().map(|s| s.to_string()).collect(),
        funcs: vec![],
        labels: labels.iter().map(|s| s.to_string()).collect(),
    })
}

fn jmp(to: &str) -> Code {
    effect(EffectOps::Jump, &[], &[to])
}

fn br(cond: &str, t: &str, f: &str) -> Code {
    effect(EffectOps::Branch, &[cond], &[t, f])
}

fn ret() -> Code {
    effect(EffectOps::Return, &[], &[])
}

fn label(name: &str) -> Code {
    Code::Label { label: name.to_string() }
}

fn cfg_of(instrs: Vec<Code>) -> CFG {
    let f = Function { name: "main".to_string(), args: vec![], return_type: None, instrs };
    generate_cfg(&f).unwrap()
}

fn diamond() -> CFG {
    cfg_of(vec![
        label("a"),
        konst("c", 1),
        br("c", "b", "c"),
        label("b"),
        jmp("d"),
        label("c"),
        jmp("d"),
        label("d"),
        ret(),
    ])
}

fn tree_children(tree: &Graph, x: usize) -> Vec<usize> {
    let mut kids: Vec<usize> = tree.neighbors(x).collect();
    kids.sort();
    kids
}

#[test]
fn dominators_of_a_diamond() {
    let cfg = diamond();
    let dom = cfg.find_dominators();
    assert_eq!(dom.dominators[0], vec![0]);
    assert_eq!(dom.dominators[1], vec![0, 1]);
    assert_eq!(dom.dominators[2], vec![0, 2]);
    assert_eq!(dom.dominators[3], vec![0, 3]);
    assert_eq!(dom.dominators[4], vec![0, 3, 4]);
    assert_eq!(dom.dominance_frontier[1], vec![3]);
    assert_eq!(dom.dominance_frontier[2], vec![3]);
    assert_eq!(dom.dominance_frontier[0], Vec::<usize>::new());
    assert_eq!(dom.dominance_frontier[3], Vec::<usize>::new());
    assert_eq!(dom.immediate_dominator[3], Some(0));
    assert_eq!(dom.immediate_dominator[0], None);
    assert_eq!(dom.immediate_dominator[1], Some(0));
    assert_eq!(dom.immediate_dominator[2], Some(0));
    assert_eq!(dom.immediate_dominator[4], Some(3));
}

#[test]
fn dominated_by_is_the_inverse_of_dominators() {
    let cfg = diamond();
    let dom = cfg.find_dominators();
    assert_eq!(dom.dominated_by[0], vec![0, 1, 2, 3, 4]);
    assert_eq!(dom.dominated_by[1], vec![1]);
    assert_eq!(dom.dominated_by[2], vec![2]);
    assert_eq!(dom.dominated_by[3], vec![3, 4]);
    assert_eq!(dom.dominated_by[4], vec![4]);
    for x in 0..5 {
        for d in 0..5 {
            assert_eq!(dom.dominators[x].contains(&d), dom.dominated_by[d].contains(&x));
        }
    }
}

#[test]
fn dominator_tree_of_a_diamond() {
    let cfg = diamond();
    let dom = cfg.find_dominators();
    assert_eq!(tree_children(&dom.dominator_tree, 0), vec![1, 2, 3]);
    assert_eq!(tree_children(&dom.dominator_tree, 3), vec![4]);
    assert_eq!(tree_children(&dom.dominator_tree, 1), Vec::<usize>::new());
    assert_eq!(dom.dominator_tree.node_count(), 5);
}

#[test]
fn frontier_of_then_holds_the_join() {
    let cfg = cfg_of(vec![
        konst("c", 1),
        br("c", "then", "else"),
        label("then"),
        konst("x", 1),
        jmp("join"),
        label("else"),
        konst("x", 2),
        jmp("join"),
        label("join"),
        ret(),
    ]);
    let dom = cfg.find_dominators();
    assert!(dom.dominance_frontier[1].contains(&3));
    assert_eq!(cfg.blocks[3].label, "join");
}

#[test]
fn dominators_of_a_loop() {
    let cfg = cfg_of(vec![
        konst("i", 0),
        jmp("header"),
        label("header"),
        br("i", "body", "exit"),
        label("body"),
        jmp("header"),
        label("exit"),
        ret(),
    ]);
    let dom = cfg.find_dominators();
    assert_eq!(dom.dominators[1], vec![0, 1]);
    assert_eq!(dom.dominators[2], vec![0, 1, 2]);
    assert_eq!(dom.dominators[3], vec![0, 1, 3]);
    assert_eq!(dom.dominators[4], vec![0, 1, 3, 4]);
    assert_eq!(dom.dominance_frontier[2], vec![1]);
    assert_eq!(dom.dominance_frontier[1], vec![1]);
    assert_eq!(dom.immediate_dominator[2], Some(1));
    assert_eq!(dom.immediate_dominator[3], Some(1));
}

#[test]
fn a_block_that_is_not_reached_has_every_node_as_dominator() {
    let cfg = cfg_of(vec![label("a"), ret(), label("dead"), jmp("a")]);
    let dom = cfg.find_dominators();
    assert_eq!(dom.dominators[0], vec![0]);
    assert_eq!(dom.dominators[1], vec![0, 1, 2]);
    assert_eq!(dom.dominators[2], vec![0, 2]);
}

#[test]
fn every_reached_node_is_dominated_by_the_entry_and_itself() {
    let cfg = cfg_of(vec![
        label("a"),
        br("c", "b", "d"),
        label("b"),
        br("c", "c", "d"),
        label("c"),
        jmp("b"),
        label("d"),
        br("c", "a", "e"),
        label("e"),
        ret(),
    ]);
    let dom = cfg.find_dominators();
    for x in 0..dom.dominators.len() {
        assert!(dom.dominators[x].contains(&0));
        assert!(dom.dominators[x].contains(&x));
    }
    assert_eq!(dom.dominators[3], vec![0, 3]);
    assert_eq!(dom.dominators[2], vec![0, 1, 2]);
    for x in 1..dom.dominators.len() {
        assert!(dom.immediate_dominator[x].is_some());
    }
}

#[test]
fn a_graph_without_blocks_has_empty_lists() {
    let cfg = cfg_of(vec![]);
    let dom = cfg.find_dominators();
    assert_eq!(dom.dominators, vec![Vec::<usize>::new()]);
    assert_eq!(dom.dominance_frontier, vec![Vec::<usize>::new()]);
    assert_eq!(dom.immediate_dominator, vec![None]);
}

#[test]
fn reverse_postorder_starts_at_the_start_and_holds_what_it_reaches() {
    let cfg = cfg_of(vec![label("a"), jmp("c"), label("dead"), jmp("c"), label("c"), ret()]);
    let order = reverse_postorder(&cfg.graph, 0);
    assert_eq!(order, vec![0, 2, 3]);
    let order = reverse_postorder(&cfg.graph, 1);
    assert_eq!(order, vec![1, 2, 3]);
}
