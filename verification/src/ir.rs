//! The intermediate representation: typed literals, the three shapes of
//! instruction, labels, and functions, each with its mathematical view.
use vstd::prelude::*;

verus! {

/// The type of a variable or literal.
#[derive(Debug, PartialEq, Eq)]
pub enum Type {
    Int,
    Bool,
    Float,
    Char,
    Pointer(Box<Type>),
}

impl Type {
    /// Structural equality of two types.
    pub fn same(&self, other: &Type) -> (r: bool)
        ensures
            r == (*self == *other),
        decreases *self,
    {
        match (self, other) {
            (Type::Int, Type::Int) => true,
            (Type::Bool, Type::Bool) => true,
            (Type::Float, Type::Float) => true,
            (Type::Char, Type::Char) => true,
            (Type::Pointer(a), Type::Pointer(b)) => a.same(b),
            _ => false,
        }
    }
}

impl Clone for Type {
    fn clone(&self) -> (r: Self)
        ensures
            r == *self,
        decreases *self,
    {
        match self {
            Type::Int => Type::Int,
            Type::Bool => Type::Bool,
            Type::Float => Type::Float,
            Type::Char => Type::Char,
            Type::Pointer(inner) => Type::Pointer(Box::new((**inner).clone())),
        }
    }
}

/// A typed constant. A float is held as its IEEE-754 bit pattern, so two
/// floats are equal exactly when their bits are.
#[derive(Clone, Copy, Debug, PartialEq, Eq, Structural)]
pub enum Literal {
    Int(i64),
    Bool(bool),
    Float(u64),
    Char(char),
}

/// Operations that produce a value.
#[derive(Clone, Copy, Debug, PartialEq, Eq, Structural)]
pub enum ValueOps {
    Add,
    Sub,
    Mul,
    Div,
    Eq,
    Lt,
    Gt,
    Le,
    Ge,
    Not,
    And,
    Or,
    Call,
    Id,
    Fadd,
    Fsub,
    Fmul,
    Fdiv,
    Feq,
    Flt,
    Fgt,
    Fle,
    Fge,
    Ceq,
    Clt,
    Cgt,
    Cle,
    Cge,
    Char2int,
    Int2char,
    Alloc,
    Load,
    PtrAdd,
    Phi,
}

/// Operations that only have an effect.
#[derive(Clone, Copy, Debug, PartialEq, Eq, Structural)]
pub enum EffectOps {
    Jump,
    Branch,
    Call,
    Return,
    Print,
    Nop,
    Store,
    Free,
    Speculate,
    Commit,
    Guard,
}

/// The views of a sequence of strings.
pub open spec fn names(v: Seq<String>) -> Seq<Seq<char>> {
    Seq::new(v.len(), |i: int| v[i]@)
}

/// A copy of a list of strings.
pub fn clone_names(v: &Vec<String>) -> (r: Vec<String>)
    ensures
        names(r@) == names(v@),
{
    let mut r: Vec<String> = Vec::new();
    let mut i: usize = 0;
    while i < v.len()
        invariant
            i <= v.len(),
            r.len() == i,
            forall|k: int| 0 <= k < i ==> r[k]@ == v[k]@,
        decreases v.len() - i,
    {
        r.push(v[i].clone());
        i += 1;
    }
    assert(names(r@) =~= names(v@));
    r
}

/// Whether a list of strings holds `s`.
pub fn has_name(v: &Vec<String>, s: &String) -> (r: bool)
    ensures
        r == names(v@).contains(s@),
{
    let mut i: usize = 0;
    while i < v.len()
        invariant
            i <= v.len(),
            forall|k: int| 0 <= k < i ==> v[k]@ != s@,
        decreases v.len() - i,
    {
        if v[i] == *s {
            assert(names(v@)[i as int] == s@);
            return true;
        }
        i += 1;
    }
    false
}

/// The first position at which a list of strings holds `s`.
pub fn find_name(v: &Vec<String>, s: &String) -> (r: Option<usize>)
    ensures
        r == first_index(names(v@), s@),
{
    let mut i: usize = 0;
    while i < v.len()
        invariant
            i <= v.len(),
            forall|k: int| 0 <= k < i ==> v[k]@ != s@,
        decreases v.len() - i,
    {
        if v[i] == *s {
            proof {
                lemma_first_index(names(v@), s@, i as int);
            }
            return Some(i);
        }
        i += 1;
    }
    proof {
        lemma_first_index_none(names(v@), s@);
    }
    None
}

/// The first position of `x` in `s`, if it occurs.
#[verifier::opaque]
pub open spec fn first_index<T>(s: Seq<T>, x: T) -> Option<usize> {
    if exists|i: int| 0 <= i < s.len() && s[i] == x {
        Some(
            (choose|i: int|
                0 <= i < s.len() && s[i] == x && (forall|k: int| 0 <= k < i ==> s[k] != x)) as usize,
        )
    } else {
        None
    }
}

pub proof fn lemma_first_index<T>(s: Seq<T>, x: T, i: int)
    requires
        0 <= i < s.len(),
        i <= usize::MAX,
        s[i] == x,
        forall|k: int| 0 <= k < i ==> s[k] != x,
    ensures
        first_index(s, x) == Some(i as usize),
{
    reveal(first_index);
    let j = choose|j: int| 0 <= j < s.len() && s[j] == x && (forall|k: int| 0 <= k < j ==> s[k] != x);
    assert(0 <= j < s.len() && s[j] == x && (forall|k: int| 0 <= k < j ==> s[k] != x));
    if j < i {
        assert(s[j] != x);
    }
    if i < j {
        assert(s[i] != x);
    }
}

pub proof fn lemma_first_index_none<T>(s: Seq<T>, x: T)
    requires
        forall|k: int| 0 <= k < s.len() ==> s[k] != x,
    ensures
        first_index(s, x) is None,
        !s.contains(x),
{
    reveal(first_index);
}

/// The mathematical view of an instruction.
#[allow(inconsistent_fields)]
pub enum InstrView {
    Constant { dest: Seq<char>, const_type: Type, value: Literal },
    Value {
        dest: Seq<char>,
        op_type: Type,
        op: ValueOps,
        args: Seq<Seq<char>>,
        funcs: Seq<Seq<char>>,
        labels: Seq<Seq<char>>,
    },
    Effect { op: EffectOps, args: Seq<Seq<char>>, funcs: Seq<Seq<char>>, labels: Seq<Seq<char>> },
}

impl InstrView {
    /// The variable that the instruction writes, if it writes one.
    pub open spec fn dest(self) -> Option<Seq<char>> {
        match self {
            InstrView::Constant { dest, .. } => Some(dest),
            InstrView::Value { dest, .. } => Some(dest),
            InstrView::Effect { .. } => None,
        }
    }

    /// The variables that the instruction reads, if it can read any.
    pub open spec fn args(self) -> Option<Seq<Seq<char>>> {
        match self {
            InstrView::Constant { .. } => None,
            InstrView::Value { args, .. } => Some(args),
            InstrView::Effect { args, .. } => Some(args),
        }
    }

    /// The variables that the instruction reads; none for a constant.
    pub open spec fn uses(self) -> Seq<Seq<char>> {
        match self.args() {
            Some(a) => a,
            None => Seq::empty(),
        }
    }

    /// The type of the value that the instruction produces, if it produces one.
    pub open spec fn ty(self) -> Option<Type> {
        match self {
            InstrView::Constant { const_type, .. } => Some(const_type),
            InstrView::Value { op_type, .. } => Some(op_type),
            InstrView::Effect { .. } => None,
        }
    }

    /// The instruction with its arguments replaced; a constant is unchanged.
    pub open spec fn with_args(self, values: Seq<Seq<char>>) -> InstrView {
        match self {
            InstrView::Constant { .. } => self,
            InstrView::Value { dest, op_type, op, args, funcs, labels } => InstrView::Value {
                dest,
                op_type,
                op,
                args: values,
                funcs,
                labels,
            },
            InstrView::Effect { op, args, funcs, labels } => InstrView::Effect {
                op,
                args: values,
                funcs,
                labels,
            },
        }
    }

    /// The instruction with its destination replaced; an effect is unchanged.
    pub open spec fn with_dest(self, value: Seq<char>) -> InstrView {
        match self {
            InstrView::Constant { dest, const_type, value: v } => InstrView::Constant {
                dest: value,
                const_type,
                value: v,
            },
            InstrView::Value { dest, op_type, op, args, funcs, labels } => InstrView::Value {
                dest: value,
                op_type,
                op,
                args,
                funcs,
                labels,
            },
            InstrView::Effect { .. } => self,
        }
    }

    /// A call, with or without a result.
    pub open spec fn is_call(self) -> bool {
        match self {
            InstrView::Effect { op, .. } => op == EffectOps::Call,
            InstrView::Value { op, .. } => op == ValueOps::Call,
            InstrView::Constant { .. } => false,
        }
    }

    /// A branch, a jump or a return: the instructions that end a block.
    pub open spec fn is_terminator(self) -> bool {
        match self {
            InstrView::Effect { op, .. } => op == EffectOps::Branch || op == EffectOps::Jump || op
                == EffectOps::Return,
            _ => false,
        }
    }

    /// A phi instruction.
    pub open spec fn is_phi(self) -> bool {
        match self {
            InstrView::Value { op, .. } => op == ValueOps::Phi,
            _ => false,
        }
    }
}

/// One instruction of the three-address code.
#[derive(Debug, PartialEq, Eq)]
#[allow(inconsistent_fields)]
pub enum Instruction {
    Constant { dest: String, const_type: Type, value: Literal },
    Value {
        dest: String,
        op_type: Type,
        op: ValueOps,
        args: Vec<String>,
        funcs: Vec<String>,
        labels: Vec<String>,
    },
    Effect { op: EffectOps, args: Vec<String>, funcs: Vec<String>, labels: Vec<String> },
}

impl View for Instruction {
    type V = InstrView;

    open spec fn view(&self) -> InstrView {
        match *self {
            Instruction::Constant { dest, const_type, value } => InstrView::Constant {
                dest: dest@,
                const_type,
                value,
            },
            Instruction::Value { dest, op_type, op, args, funcs, labels } => InstrView::Value {
                dest: dest@,
                op_type,
                op,
                args: names(args@),
                funcs: names(funcs@),
                labels: names(labels@),
            },
            Instruction::Effect { op, args, funcs, labels } => InstrView::Effect {
                op,
                args: names(args@),
                funcs: names(funcs@),
                labels: names(labels@),
            },
        }
    }
}

impl Clone for Instruction {
    fn clone(&self) -> (r: Self)
        ensures
            r@ == self@,
    {
        match self {
            Instruction::Constant { dest, const_type, value } => Instruction::Constant {
                dest: dest.clone(),
                const_type: const_type.clone(),
                value: *value,
            },
            Instruction::Value { dest, op_type, op, args, funcs, labels } => Instruction::Value {
                dest: dest.clone(),
                op_type: op_type.clone(),
                op: *op,
                args: clone_names(args),
                funcs: clone_names(funcs),
                labels: clone_names(labels),
            },
            Instruction::Effect { op, args, funcs, labels } => Instruction::Effect {
                op: *op,
                args: clone_names(args),
                funcs: clone_names(funcs),
                labels: clone_names(labels),
            },
        }
    }
}

/// Tests on the kind of an instruction.
pub trait CheckOp {
    spec fn call_like(&self) -> bool;

    spec fn const_like(&self) -> bool;

    fn is_call(&self) -> (r: bool)
        ensures
            r == self.call_like(),
    ;

    fn is_const(&self) -> (r: bool)
        ensures
            r == self.const_like(),
    ;
}

impl CheckOp for Instruction {
    open spec fn call_like(&self) -> bool {
        self@.is_call()
    }

    open spec fn const_like(&self) -> bool {
        self@ is Constant
    }

    fn is_call(&self) -> (r: bool) {
        match self {
            Instruction::Effect { op, .. } => *op == EffectOps::Call,
            Instruction::Value { op, .. } => *op == ValueOps::Call,
            Instruction::Constant { .. } => false,
        }
    }

    fn is_const(&self) -> (r: bool) {
        match self {
            Instruction::Constant { .. } => true,
            _ => false,
        }
    }
}

/// Reading and writing the fields that only some instructions have. A
/// setter leaves an instruction without the field as it is.
pub trait SafeAccess: View<V = InstrView> + Sized {
    fn get_args(&self) -> (r: Option<Vec<String>>)
        ensures
            match r {
                Some(a) => self@.args() == Some(names(a@)),
                None => self@.args() is None,
            },
    ;

    fn set_args(&mut self, values: Vec<String>)
        ensures
            final(self)@ == old(self)@.with_args(names(values@)),
    ;

    fn get_dest(&self) -> (r: Option<String>)
        ensures
            match r {
                Some(d) => self@.dest() == Some(d@),
                None => self@.dest() is None,
            },
    ;

    fn set_dest(&mut self, value: String)
        ensures
            final(self)@ == old(self)@.with_dest(value@),
    ;

    fn get_type(&self) -> (r: Option<&Type>)
        ensures
            match r {
                Some(t) => self@.ty() == Some(*t),
                None => self@.ty() is None,
            },
    ;
}

impl SafeAccess for Instruction {
    fn get_args(&self) -> (r: Option<Vec<String>>) {
        match self {
            Instruction::Value { args, .. } => Some(clone_names(args)),
            Instruction::Effect { args, .. } => Some(clone_names(args)),
            Instruction::Constant { .. } => None,
        }
    }

    fn set_args(&mut self, values: Vec<String>) {
        match self {
            Instruction::Value { args, .. } => {
                *args = values;
            },
            Instruction::Effect { args, .. } => {
                *args = values;
            },
            Instruction::Constant { .. } => {},
        }
    }

    fn get_dest(&self) -> (r: Option<String>) {
        match self {
            Instruction::Constant { dest, .. } => Some(dest.clone()),
            Instruction::Value { dest, .. } => Some(dest.clone()),
            Instruction::Effect { .. } => None,
        }
    }

    fn set_dest(&mut self, value: String) {
        match self {
            Instruction::Constant { dest, .. } => {
                *dest = value;
            },
            Instruction::Value { dest, .. } => {
                *dest = value;
            },
            Instruction::Effect { .. } => {},
        }
    }

    fn get_type(&self) -> (r: Option<&Type>) {
        match self {
            Instruction::Constant { const_type, .. } => Some(const_type),
            Instruction::Value { op_type, .. } => Some(op_type),
            Instruction::Effect { .. } => None,
        }
    }
}

/// The views of a sequence of instructions.
pub open spec fn instr_views(v: Seq<Instruction>) -> Seq<InstrView> {
    Seq::new(v.len(), |i: int| v[i]@)
}

/// A copy of a list of instructions.
pub fn clone_instrs(v: &Vec<Instruction>) -> (r: Vec<Instruction>)
    ensures
        instr_views(r@) == instr_views(v@),
{
    let mut r: Vec<Instruction> = Vec::new();
    let mut i: usize = 0;
    while i < v.len()
        invariant
            i <= v.len(),
            r.len() == i,
            forall|k: int| 0 <= k < i ==> r[k]@ == v[k]@,
        decreases v.len() - i,
    {
        r.push(v[i].clone());
        i += 1;
    }
    assert(instr_views(r@) =~= instr_views(v@));
    r
}

/// The mathematical view of one item of a function body.
pub enum CodeView {
    Label { label: Seq<char> },
    Instruction(InstrView),
}

/// One item of a function body: a label or an instruction.
#[derive(Debug, PartialEq, Eq)]
pub enum Code {
    Label { label: String },
    Instruction(Instruction),
}

impl View for Code {
    type V = CodeView;

    open spec fn view(&self) -> CodeView {
        match *self {
            Code::Label { label } => CodeView::Label { label: label@ },
            Code::Instruction(instr) => CodeView::Instruction(instr@),
        }
    }
}

impl Clone for Code {
    fn clone(&self) -> (r: Self)
        ensures
            r@ == self@,
    {
        match self {
            Code::Label { label } => Code::Label { label: label.clone() },
            Code::Instruction(instr) => Code::Instruction(instr.clone()),
        }
    }
}

/// The views of a sequence of code items.
pub open spec fn code_views(v: Seq<Code>) -> Seq<CodeView> {
    Seq::new(v.len(), |i: int| v[i]@)
}

/// A formal parameter of a function.
#[derive(Debug, PartialEq, Eq)]
pub struct Argument {
    pub name: String,
    pub arg_type: Type,
}

impl Clone for Argument {
    fn clone(&self) -> (r: Self)
        ensures
            r.name@ == self.name@,
            r.arg_type == self.arg_type,
    {
        Argument { name: self.name.clone(), arg_type: self.arg_type.clone() }
    }
}

/// The names of a sequence of parameters.
pub open spec fn arg_names(v: Seq<Argument>) -> Seq<Seq<char>> {
    Seq::new(v.len(), |i: int| v[i].name@)
}

/// The types of a sequence of parameters.
pub open spec fn arg_types(v: Seq<Argument>) -> Seq<Type> {
    Seq::new(v.len(), |i: int| v[i].arg_type)
}

/// A copy of a list of parameters.
pub fn clone_args(v: &Vec<Argument>) -> (r: Vec<Argument>)
    ensures
        arg_names(r@) == arg_names(v@),
        arg_types(r@) == arg_types(v@),
{
    let mut r: Vec<Argument> = Vec::new();
    let mut i: usize = 0;
    while i < v.len()
        invariant
            i <= v.len(),
            r.len() == i,
            forall|k: int| 0 <= k < i ==> r[k].name@ == v[k].name@ && r[k].arg_type == v[k].arg_type,
        decreases v.len() - i,
    {
        r.push(v[i].clone());
        i += 1;
    }
    assert(arg_names(r@) =~= arg_names(v@));
    assert(arg_types(r@) =~= arg_types(v@));
    r
}

/// A function: its name, parameters, return type and flat body.
#[derive(Debug, PartialEq, Eq)]
pub struct Function {
    pub name: String,
    pub args: Vec<Argument>,
    pub return_type: Option<Type>,
    pub instrs: Vec<Code>,
}

/// `first_index` finds `x` exactly when `s` holds it.
pub proof fn lemma_first_index_some<T>(s: Seq<T>, x: T)
    ensures
        first_index(s, x) is Some <==> s.contains(x),
{
    reveal(first_index);
}

/// What `first_index` gives: a position below the length that holds `x`,
/// with no `x` before it.
pub proof fn lemma_first_index_found<T>(s: Seq<T>, x: T)
    requires
        s.len() <= usize::MAX,
    ensures
        match first_index(s, x) {
            Some(i) => i < s.len() && s[i as int] == x && forall|k: int| 0 <= k < i ==> s[k] != x,
            None => !s.contains(x),
        },
{
    reveal(first_index);
    if exists|i: int| 0 <= i < s.len() && s[i] == x {
        let w = choose|i: int| 0 <= i < s.len() && s[i] == x;
        lemma_has_first(s, x, w);
        let j = choose|j: int|
            0 <= j < s.len() && s[j] == x && (forall|k: int| 0 <= k < j ==> s[k] != x);
        assert(0 <= j < s.len() && s[j] == x);
    }
}

proof fn lemma_has_first<T>(s: Seq<T>, x: T, w: int)
    requires
        0 <= w < s.len(),
        s[w] == x,
    ensures
        exists|j: int| 0 <= j < s.len() && s[j] == x && (forall|k: int| 0 <= k < j ==> s[k] != x),
    decreases w,
{
    if exists|k: int| 0 <= k < w && s[k] == x {
        let k = choose|k: int| 0 <= k < w && s[k] == x;
        lemma_has_first(s, x, k);
    } else {
        assert(forall|k: int| 0 <= k < w ==> s[k] != x);
    }
}

/// A copy of a list of code items.
pub fn clone_codes(v: &Vec<Code>) -> (r: Vec<Code>)
    ensures
        code_views(r@) == code_views(v@),
{
    let mut r: Vec<Code> = Vec::new();
    let mut i: usize = 0;
    while i < v.len()
        invariant
            i <= v.len(),
            r.len() == i,
            forall|k: int| 0 <= k < i ==> r[k]@ == v[k]@,
        decreases v.len() - i,
    {
        r.push(v[i].clone());
        i += 1;
    }
    assert(code_views(r@) =~= code_views(v@));
    r
}

impl Clone for Function {
    fn clone(&self) -> (r: Self)
        ensures
            r.name@ == self.name@,
            arg_names(r.args@) == arg_names(self.args@),
            arg_types(r.args@) == arg_types(self.args@),
            r.return_type == self.return_type,
            code_views(r.instrs@) == code_views(self.instrs@),
    {
        Function {
            name: self.name.clone(),
            args: clone_args(&self.args),
            return_type: match &self.return_type {
                Some(t) => Some(t.clone()),
                None => None,
            },
            instrs: clone_codes(&self.instrs),
        }
    }
}

/// The last position of `x` in `s`, if it occurs.
#[verifier::opaque]
pub open spec fn last_index<T>(s: Seq<T>, x: T) -> Option<usize> {
    if exists|i: int| 0 <= i < s.len() && s[i] == x {
        Some(
            (choose|i: int|
                0 <= i < s.len() && s[i] == x && (forall|k: int| i < k < s.len() ==> s[k] != x)) as usize,
        )
    } else {
        None
    }
}

pub proof fn lemma_last_index<T>(s: Seq<T>, x: T, i: int)
    requires
        0 <= i < s.len(),
        i <= usize::MAX,
        s[i] == x,
        forall|k: int| i < k < s.len() ==> s[k] != x,
    ensures
        last_index(s, x) == Some(i as usize),
{
    reveal(last_index);
    let j = choose|j: int|
        0 <= j < s.len() && s[j] == x && (forall|k: int| j < k < s.len() ==> s[k] != x);
    assert(0 <= j < s.len() && s[j] == x && (forall|k: int| j < k < s.len() ==> s[k] != x));
    if j < i {
        assert(s[i] != x);
    }
    if i < j {
        assert(s[j] != x);
    }
}

/// What `last_index` gives: a position below the length that holds `x`.
pub proof fn lemma_last_index_found<T>(s: Seq<T>, x: T)
    requires
        s.len() <= usize::MAX,
    ensures
        match last_index(s, x) {
            Some(i) => i < s.len() && s[i as int] == x && forall|k: int|
                i < k < s.len() ==> s[k] != x,
            None => !s.contains(x),
        },
{
    reveal(last_index);
    if exists|i: int| 0 <= i < s.len() && s[i] == x {
        let w = choose|i: int| 0 <= i < s.len() && s[i] == x;
        lemma_has_last(s, x, w);
        let j = choose|j: int|
            0 <= j < s.len() && s[j] == x && (forall|k: int| j < k < s.len() ==> s[k] != x);
        assert(0 <= j < s.len() && s[j] == x);
    }
}

/// If `s` holds `x` it holds it at a last position.
pub proof fn lemma_has_last<T>(s: Seq<T>, x: T, w: int)
    requires
        0 <= w < s.len(),
        s[w] == x,
    ensures
        exists|j: int|
            0 <= j < s.len() && s[j] == x && (forall|k: int| j < k < s.len() ==> s[k] != x),
    decreases s.len() - w,
{
    if exists|k: int| w < k < s.len() && s[k] == x {
        let k = choose|k: int| w < k < s.len() && s[k] == x;
        lemma_has_last(s, x, k);
    } else {
        assert(forall|k: int| w < k < s.len() ==> s[k] != x);
    }
}

/// The last position at which a list of strings holds `s`.
pub fn find_last_name(v: &Vec<String>, s: &String) -> (r: Option<usize>)
    ensures
        r == last_index(names(v@), s@),
{
    let mut i: usize = v.len();
    while i > 0
        invariant
            i <= v.len(),
            forall|k: int| i <= k < v.len() ==> v[k]@ != s@,
        decreases i,
    {
        i -= 1;
        if v[i] == *s {
            proof {
                lemma_last_index(names(v@), s@, i as int);
            }
            return Some(i);
        }
    }
    proof {
        reveal(last_index);
    }
    None
}

} // verus!
