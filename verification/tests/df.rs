use bril_passes::blocks::Block;
use bril_passes::cfg::{generate_cfg, CFGNode, CFG};
use bril_passes::df::{run_worklist, Analysis, DataFlowHelpers, Direction};
use bril_passes::ir::{Code, EffectOps, Function, Instruction, Literal, Type, ValueOps};
use bril_passes::live_vars::LiveVars;
use bril_passes::reaching_defs::{Definition, ReachingDefs};

fn konst(dest: &str, value: i64) -> Code {
    Code::Instruction(Instruction::Constant {
        dest: dest.to_string(),
        const_type: Type::Int,
        value: Literal::Int(value),
    })
}

fn add(dest: &str, a: &str, b: &str) -> Code {
    Code::Instruction(Instruction::Value {
        dest: dest.to_string(),
        op_type: Type::Int,
        op: ValueOps::Add,
        args: vec![a.to_string(), b.to_string()],
        funcs: vec![],
        labels: vec![],
    })
}

fn effect(op: EffectOps, args: &[&str], labels: &[&str]) -> Code {
    Code::Instruction(Instruction::Effect {
        op,
        args: args.iter().map(|s| s.to_string()).collect(),
        funcs: vec![],
        labels: labels.iter().map(|s| s.to_string()).collect(),
    })
}

fn label(name: &str) -> Code {
    Code::Label { label: name.to_string() }
}

fn looping() -> CFG {
    let f = Function {
        name: "main".to_string(),
        args: vec![],
        return_type: None,
        instrs: vec![
            konst("i", 0),
            konst("n", 10),
            effect(EffectOps::Jump, &[], &["header"]),
            label("header"),
            add("c", "i", "n"),
            effect(EffectOps::Branch, &["c"], &["body", "exit"]),
            label("body"),
            add("i", "i", "i"),
            effect(EffectOps::Jump, &[], &["header"]),
            label("exit"),
            effect(EffectOps::Print, &["i"], &[]),
        ],
    };
    generate_cfg(&f).unwrap()
}

fn live(facts: &Option<LiveVars>) -> Vec<String> {
    let mut v = facts.as_ref().unwrap().0.clone();
    v.sort();
    v
}

fn reaching(facts: &Option<ReachingDefs>) -> Vec<(String, usize)> {
    let mut v: Vec<(String, usize)> = facts
        .as_ref()
        .unwrap()
        .0
        .iter()
        .map(|d| (d.variable.clone(), d.block_index))
        .collect();
    v.sort();
    v
}

fn strs(v: &[&str]) -> Vec<String> {
    v.iter().map(|s| s.to_string()).collect()
}

fn defs(v: &[(&str, usize)]) -> Vec<(String, usize)> {
    v.iter().map(|(s, i)| (s.to_string(), *i)).collect()
}

#[test]
fn live_variables_of_a_loop() {
    let cfg = looping();
    let r = run_worklist::<LiveVars>(&cfg);
    assert_eq!(r.in_map.len(), 5);
    assert_eq!(live(&r.in_map[0]), strs(&[]));
    assert_eq!(live(&r.out_map[0]), strs(&["i", "n"]));
    assert_eq!(live(&r.in_map[1]), strs(&["i", "n"]));
    assert_eq!(live(&r.out_map[1]), strs(&["i", "n"]));
    assert_eq!(live(&r.in_map[2]), strs(&["i", "n"]));
    assert_eq!(live(&r.out_map[2]), strs(&["i", "n"]));
    assert_eq!(live(&r.in_map[3]), strs(&["i"]));
    assert_eq!(live(&r.out_map[3]), strs(&[]));
    assert_eq!(live(&r.in_map[4]), strs(&[]));
}

#[test]
fn reaching_definitions_of_a_loop() {
    let cfg = looping();
    let r = run_worklist::<ReachingDefs>(&cfg);
    assert_eq!(reaching(&r.in_map[0]), defs(&[]));
    assert_eq!(reaching(&r.out_map[0]), defs(&[("i", 0), ("n", 0)]));
    assert_eq!(reaching(&r.in_map[1]), defs(&[("c", 1), ("i", 0), ("i", 2), ("n", 0)]));
    assert_eq!(reaching(&r.out_map[1]), defs(&[("c", 1), ("i", 0), ("i", 2), ("n", 0)]));
    assert_eq!(reaching(&r.out_map[2]), defs(&[("c", 1), ("i", 2), ("n", 0)]));
    assert_eq!(reaching(&r.in_map[3]), defs(&[("c", 1), ("i", 0), ("i", 2), ("n", 0)]));
    assert_eq!(reaching(&r.in_map[4]), reaching(&r.out_map[3]));
    assert_eq!(reaching(&r.out_map[4]), reaching(&r.in_map[4]));
}

#[test]
fn facts_come_to_rest_in_nested_loops() {
    let f = Function {
        name: "main".to_string(),
        args: vec![],
        return_type: None,
        instrs: vec![
            label("outer"),
            add("a", "a", "b"),
            label("inner"),
            add("b", "a", "c"),
            effect(EffectOps::Branch, &["b"], &["inner", "next"]),
            label("next"),
            add("c", "b", "b"),
            effect(EffectOps::Branch, &["c"], &["outer", "end"]),
            label("end"),
            effect(EffectOps::Print, &["a"], &[]),
        ],
    };
    let cfg = generate_cfg(&f).unwrap();
    let l = run_worklist::<LiveVars>(&cfg);
    assert_eq!(live(&l.in_map[0]), strs(&["a", "b", "c"]));
    assert_eq!(live(&l.in_map[1]), strs(&["a", "c"]));
    assert_eq!(live(&l.out_map[1]), strs(&["a", "b", "c"]));
    assert_eq!(live(&l.in_map[2]), strs(&["a", "b"]));
    assert_eq!(live(&l.in_map[3]), strs(&["a"]));
    let r = run_worklist::<ReachingDefs>(&cfg);
    assert_eq!(
        reaching(&r.in_map[0]),
        defs(&[("a", 0), ("b", 1), ("c", 2)])
    );
    assert_eq!(reaching(&r.out_map[2]), defs(&[("a", 0), ("b", 1), ("c", 2)]));
}

#[test]
fn nothing_is_live_in_a_loop_that_reads_nothing() {
    let f = Function {
        name: "main".to_string(),
        args: vec![],
        return_type: None,
        instrs: vec![
            label("top"),
            effect(EffectOps::Jump, &[], &["top"]),
            label("other"),
            effect(EffectOps::Print, &["z"], &[]),
        ],
    };
    let cfg = generate_cfg(&f).unwrap();
    let r = run_worklist::<LiveVars>(&cfg);
    assert_eq!(live(&r.in_map[0]), strs(&[]));
    assert_eq!(live(&r.out_map[0]), strs(&[]));
    assert_eq!(live(&r.in_map[1]), strs(&["z"]));
    assert_eq!(live(&r.out_map[1]), strs(&[]));
}

#[test]
fn live_variables_come_in_order() {
    let facts = LiveVars(strs(&["n", "i", "c", "i", "ab", "a"]));
    assert_eq!(facts.in_order(), strs(&["a", "ab", "c", "i", "n"]));
    assert_eq!(LiveVars(vec![]).in_order(), strs(&[]));
}

#[test]
fn reaching_definitions_by_variable() {
    let def = |v: &str, b: usize| Definition { variable: v.to_string(), block_index: b };
    let facts = ReachingDefs(vec![def("x", 2), def("a", 1), def("x", 0), def("a", 1), def("x", 2)]);
    assert_eq!(
        facts.by_variable(),
        vec![("a".to_string(), vec![1]), ("x".to_string(), vec![0, 2])]
    );
    assert_eq!(ReachingDefs(vec![]).by_variable(), vec![]);
}

#[test]
fn an_empty_graph_has_no_facts() {
    let f = Function { name: "f".to_string(), args: vec![], return_type: None, instrs: vec![] };
    let cfg = generate_cfg(&f).unwrap();
    let r = run_worklist::<LiveVars>(&cfg);
    assert_eq!(r.in_map.len(), 1);
    assert!(r.in_map[0].is_none());
    assert!(r.out_map[0].is_none());
}

#[test]
fn a_node_that_is_not_in_the_graph_has_no_facts() {
    let f = Function {
        name: "f".to_string(),
        args: vec![],
        return_type: None,
        instrs: vec![label("spin"), effect(EffectOps::Jump, &[], &["spin"])],
    };
    let cfg = generate_cfg(&f).unwrap();
    let r = run_worklist::<ReachingDefs>(&cfg);
    assert!(r.in_map[0].is_some());
    assert!(r.in_map[1].is_none());
    assert!(r.out_map[1].is_none());
}

#[test]
fn directions_of_the_analyses() {
    assert_eq!(LiveVars::direction(), Direction::Backward);
    assert_eq!(ReachingDefs::direction(), Direction::Forward);
}

#[test]
fn live_variables_transfer() {
    let cfg = looping();
    let after = LiveVars(strs(&["c", "i", "zzz"]));
    let mut before = after.transfer(&CFGNode::Block(1), &cfg).0;
    before.sort();
    assert_eq!(before, strs(&["i", "n", "zzz"]));
    let mut same = after.transfer(&CFGNode::Return, &cfg).0;
    same.sort();
    assert_eq!(same, strs(&["c", "i", "zzz"]));
    let mut met = LiveVars(strs(&["a", "b"])).meet(&LiveVars(strs(&["b", "c"]))).0;
    met.sort();
    assert_eq!(met, strs(&["a", "b", "c"]));
    assert!(LiveVars(strs(&["a", "b"])).same(&LiveVars(strs(&["b", "a", "a"]))));
    assert!(!LiveVars(strs(&["a", "b"])).same(&LiveVars(strs(&["a"]))));
    assert!(LiveVars::bottom().0.is_empty());
    assert!(after.duplicate().same(&after));
}

#[test]
fn reaching_definitions_transfer() {
    let cfg = looping();
    let d = |v: &str, b: usize| Definition { variable: v.to_string(), block_index: b };
    let start = ReachingDefs(vec![d("i", 0), d("n", 0), d("c", 7)]);
    let out = start.transfer(&CFGNode::Block(2), &cfg);
    assert_eq!(reaching(&Some(out)), defs(&[("c", 7), ("i", 2), ("n", 0)]));
    let met = ReachingDefs(vec![d("i", 0)]).meet(&ReachingDefs(vec![d("i", 0), d("i", 2)]));
    assert_eq!(reaching(&Some(met)), defs(&[("i", 0), ("i", 2)]));
    assert!(ReachingDefs(vec![d("i", 0), d("n", 1)]).same(&ReachingDefs(vec![d("n", 1), d("i", 0)])));
    assert!(!ReachingDefs(vec![d("i", 0)]).same(&ReachingDefs(vec![d("i", 1)])));
    assert!(ReachingDefs::bottom().0.is_empty());
}

#[test]
fn block_helpers_of_the_analyses() {
    let block = Block {
        label: "b".to_string(),
        instrs: vec![
            Instruction::Value {
                dest: "x".to_string(),
                op_type: Type::Int,
                op: ValueOps::Add,
                args: vec!["a".to_string(), "b".to_string()],
                funcs: vec![],
                labels: vec![],
            },
        ],
    };
    assert_eq!(DataFlowHelpers::get_defs(&block), strs(&["x"]));
    assert_eq!(DataFlowHelpers::get_uses(&block), strs(&["a", "b"]));
}
