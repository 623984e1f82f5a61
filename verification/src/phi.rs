//! Phi nodes as they are kept while a function is brought into static
//! single assignment form.
use crate::ir::{clone_names, names, InstrView, Instruction, Type, ValueOps};
use vstd::prelude::*;

verus! {

/// The mathematical view of a phi node.
pub struct PhiView {
    pub canonical: Seq<char>,
    pub dest: Option<Seq<char>>,
    pub op_type: Type,
    pub labels: Seq<Seq<char>>,
    pub args: Seq<Option<Seq<char>>>,
}

/// A phi node: the variable it is for, under its name before renaming, the
/// name it defines once it has one, its type, and for each predecessor, by
/// its label, the name that comes in from there, or none where nothing is
/// defined.
#[derive(Debug, PartialEq, Eq)]
pub struct Phi {
    pub canonical: String,
    pub dest: Option<String>,
    pub op_type: Type,
    pub labels: Vec<String>,
    pub args: Vec<Option<String>>,
}

/// The view of a name that may be missing.
pub open spec fn name_view(o: Option<String>) -> Option<Seq<char>> {
    match o {
        Some(s) => Some(s@),
        None => None,
    }
}

/// The views of a sequence of names that may be missing.
pub open spec fn name_views(v: Seq<Option<String>>) -> Seq<Option<Seq<char>>> {
    Seq::new(v.len(), |i: int| name_view(v[i]))
}

impl View for Phi {
    type V = PhiView;

    open spec fn view(&self) -> PhiView {
        PhiView {
            canonical: self.canonical@,
            dest: name_view(self.dest),
            op_type: self.op_type,
            labels: names(self.labels@),
            args: name_views(self.args@),
        }
    }
}

/// The views of a list of phi nodes.
pub open spec fn phi_views(v: Seq<Phi>) -> Seq<PhiView> {
    Seq::new(v.len(), |i: int| v[i]@)
}

/// A phi node for `canonical` without a destination, with nothing coming in
/// yet.
pub open spec fn new_phi(canonical: Seq<char>, op_type: Type, labels: Seq<Seq<char>>) -> PhiView {
    PhiView {
        canonical,
        dest: None,
        op_type,
        labels,
        args: Seq::new(labels.len(), |i: int| None::<Seq<char>>),
    }
}

/// The name that stands in a phi instruction where nothing comes in.
pub open spec fn undefined_name() -> Seq<char> {
    "undefined"@
}

/// The arguments of a phi instruction: the names that come in, and the
/// name for "undefined" where none does.
pub open spec fn phi_args(args: Seq<Option<Seq<char>>>) -> Seq<Seq<char>> {
    Seq::new(
        args.len(),
        |i: int|
            match args[i] {
                Some(a) => a,
                None => undefined_name(),
            },
    )
}

/// The phi instruction of a phi node; the destination is empty if the node
/// has none.
pub open spec fn phi_instr(p: PhiView) -> InstrView {
    InstrView::Value {
        dest: match p.dest {
            Some(d) => d,
            None => Seq::empty(),
        },
        op_type: p.op_type,
        op: ValueOps::Phi,
        args: phi_args(p.args),
        funcs: Seq::empty(),
        labels: p.labels,
    }
}

impl Phi {
    /// A phi node for `canonical` with one slot for each label.
    pub fn new(canonical: String, op_type: Type, labels: Vec<String>) -> (r: Phi)
        ensures
            r@ == new_phi(canonical@, op_type, names(labels@)),
    {
        let mut args: Vec<Option<String>> = Vec::new();
        let mut i: usize = 0;
        while i < labels.len()
            invariant
                i <= labels.len(),
                args.len() == i,
                forall|k: int| 0 <= k < i ==> args[k] is None,
            decreases labels.len() - i,
        {
            args.push(None);
            i += 1;
        }
        let r = Phi { canonical, dest: None, op_type, labels, args };
        assert(r@.args =~= Seq::new(names(labels@).len(), |i: int| None::<Seq<char>>));
        r
    }

    /// The phi instruction of this node.
    pub fn to_instr(&self) -> (r: Instruction)
        ensures
            r@ == phi_instr(self@),
    {
        let mut args: Vec<String> = Vec::new();
        let mut i: usize = 0;
        while i < self.args.len()
            invariant
                i <= self.args.len(),
                args.len() == i,
                forall|k: int| 0 <= k < i ==> #[trigger] args[k]@ == phi_args(self@.args)[k],
            decreases self.args.len() - i,
        {
            match &self.args[i] {
                Some(a) => {
                    args.push(a.clone());
                },
                None => {
                    args.push(String::from_str("undefined"));
                },
            }
            i += 1;
        }
        let dest = match &self.dest {
            Some(d) => d.clone(),
            None => String::new(),
        };
        let r = Instruction::Value {
            dest,
            op_type: self.op_type.clone(),
            op: ValueOps::Phi,
            args,
            funcs: Vec::new(),
            labels: clone_names(&self.labels),
        };
        proof {
            assert(names(args@) =~= phi_args(self@.args));
            assert(names(Seq::<String>::empty()) =~= Seq::<Seq<char>>::empty());
        }
        r
    }
}

} // verus!
