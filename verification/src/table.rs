//! The value table of local value numbering: the values seen so far, each
//! with the variables that hold it, and the value that each variable is
//! bound to.
use crate::fold::{fold1, fold2, fold_one, fold_two};
use crate::ir::{
    find_name, first_index, lemma_first_index, lemma_first_index_found, lemma_first_index_none,
    names, InstrView, Instruction, Literal, Type, ValueOps,
};
use crate::value::{Value, ValueView};
use vstd::prelude::*;

verus! {

/// The mathematical view of a value table.
pub struct TableView {
    /// The values, in the order in which they were registered; the position
    /// of a value is its number.
    pub values: Seq<ValueView>,
    /// For each value the variables that hold it; the first is the
    /// canonical one.
    pub variables: Seq<Seq<Seq<char>>>,
    /// The number of the value that each bound variable holds.
    pub cloud: Map<Seq<char>, usize>,
}

/// `s` without the entries equal to `x`.
pub open spec fn without(s: Seq<Seq<char>>, x: Seq<char>) -> Seq<Seq<char>>
    decreases s.len(),
{
    if s.len() == 0 {
        Seq::empty()
    } else if s.last() == x {
        without(s.drop_last(), x)
    } else {
        without(s.drop_last(), x).push(s.last())
    }
}

/// The numbers of the values that the variables `args` hold, if all of them
/// are bound.
pub open spec fn numbers_of(cloud: Map<Seq<char>, usize>, args: Seq<Seq<char>>) -> Option<
    Seq<usize>,
> {
    if forall|i: int| 0 <= i < args.len() ==> cloud.contains_key(#[trigger] args[i]) {
        Some(Seq::new(args.len(), |i: int| cloud[args[i]]))
    } else {
        None
    }
}

/// The type that a literal has by its kind.
pub open spec fn type_of(l: Literal) -> Type {
    match l {
        Literal::Int(_) => Type::Int,
        Literal::Bool(_) => Type::Bool,
        Literal::Float(_) => Type::Float,
        Literal::Char(_) => Type::Char,
    }
}

/// The simplified form of `v`, read through at most `depth` values of the
/// table, one after the other. An `id` stands for the value that it copies;
/// another operation on one or two operands is folded over its simplified
/// operands; a constant and an unknown stand for themselves. Where `depth`
/// is used up, or an operand is the number of no value, the operation
/// stays as it is.
pub open spec fn simplify_within(values: Seq<ValueView>, v: ValueView, depth: nat) -> ValueView
    decreases depth,
{
    match v {
        ValueView::Operation { kind, op, args } => {
            if depth == 0 {
                v
            } else if op == ValueOps::Id {
                if args.len() >= 1 && args[0] < values.len() {
                    simplify_within(values, values[args[0] as int], (depth - 1) as nat)
                } else {
                    v
                }
            } else if args.len() == 2 {
                if args[0] < values.len() && args[1] < values.len() {
                    fold2(
                        op,
                        simplify_within(values, values[args[0] as int], (depth - 1) as nat),
                        simplify_within(values, values[args[1] as int], (depth - 1) as nat),
                        v,
                    )
                } else {
                    v
                }
            } else if args.len() == 1 {
                if args[0] < values.len() {
                    fold1(
                        op,
                        simplify_within(values, values[args[0] as int], (depth - 1) as nat),
                        v,
                    )
                } else {
                    v
                }
            } else {
                v
            }
        },
        _ => v,
    }
}

impl TableView {
    /// The number of a value, if it is registered.
    pub open spec fn index_of(self, v: ValueView) -> Option<usize> {
        first_index(self.values, v)
    }

    /// The canonical variable of the value with number `i`.
    pub open spec fn canonical_var(self, i: int) -> Option<Seq<char>> {
        if 0 <= i < self.variables.len() && self.variables[i].len() > 0 {
            Some(self.variables[i][0])
        } else {
            None
        }
    }

    /// The canonical variable of the value that `variable` is bound to.
    pub open spec fn lookup(self, variable: Seq<char>) -> Option<Seq<char>> {
        if self.cloud.contains_key(variable) {
            self.canonical_var(self.cloud[variable] as int)
        } else {
            None
        }
    }

    /// Whether `variable` is bound to a value that the block does not compute.
    pub open spec fn check_unknown(self, variable: Seq<char>) -> bool {
        self.cloud.contains_key(variable) && self.cloud[variable] < self.values.len()
            && self.values[self.cloud[variable] as int] is Unknown
    }

    /// The table with `v` registered: it gets the next number, unless it has
    /// one.
    pub open spec fn register(self, v: ValueView) -> TableView {
        if self.index_of(v) is Some {
            self
        } else {
            TableView {
                values: self.values.push(v),
                variables: self.variables.push(Seq::empty()),
                cloud: self.cloud,
            }
        }
    }

    /// The canonical variable of `v`, if `v` is registered and has one.
    pub open spec fn known_name(self, v: ValueView) -> Option<Seq<char>> {
        match self.index_of(v) {
            Some(i) => self.canonical_var(i as int),
            None => None,
        }
    }

    /// The table with `variable` bound to the registered value `v`, unless
    /// it is bound already.
    pub open spec fn bind(self, variable: Seq<char>, v: ValueView) -> TableView {
        match self.index_of(v) {
            Some(i) => if self.cloud.contains_key(variable) {
                self
            } else {
                TableView {
                    values: self.values,
                    variables: self.variables,
                    cloud: self.cloud.insert(variable, i),
                }
            },
            None => self,
        }
    }

    /// The table with `variable` as one more variable that holds the
    /// registered value `v`.
    pub open spec fn candidate(self, variable: Seq<char>, v: ValueView) -> TableView {
        match self.index_of(v) {
            Some(i) => TableView {
                values: self.values,
                variables: self.variables.update(i as int, self.variables[i as int].push(variable)),
                cloud: self.cloud,
            },
            None => self,
        }
    }

    /// The table without the binding of `variable`, which also no longer
    /// counts among the variables that hold the value it was bound to.
    pub open spec fn unbind(self, variable: Seq<char>) -> TableView {
        if self.cloud.contains_key(variable) {
            let i = self.cloud[variable] as int;
            TableView {
                values: self.values,
                variables: if 0 <= i < self.variables.len() {
                    self.variables.update(i, without(self.variables[i], variable))
                } else {
                    self.variables
                },
                cloud: self.cloud.remove(variable),
            }
        } else {
            self
        }
    }

    /// The value that an instruction computes. A constant is itself, but a
    /// constant of float type given by an integer literal is unknown, under
    /// the name of its destination; so is what a call or an allocation
    /// gives. Any other operation is an operation on the numbers of the
    /// values that its arguments are bound to, and has no value if one of
    /// them is not bound. An effect has no value.
    pub open spec fn create_value(self, instr: InstrView) -> Option<ValueView> {
        match instr {
            InstrView::Constant { dest, const_type, value } => if const_type == Type::Float
                && value is Int {
                Some(ValueView::Unknown(dest))
            } else {
                Some(ValueView::Constant(value))
            },
            InstrView::Value { dest, op_type, op, args, .. } => if op == ValueOps::Alloc || op
                == ValueOps::Call {
                Some(ValueView::Unknown(dest))
            } else {
                match numbers_of(self.cloud, args) {
                    Some(numbers) => Some(ValueView::Operation { kind: op_type, op, args: numbers }),
                    None => None,
                }
            },
            InstrView::Effect { .. } => None,
        }
    }

    /// The simplified form of `v`: copies are followed and operands
    /// simplified through the table, whichever way the numbers point. A way
    /// through a table in which no value leads back to itself passes
    /// through each value once at most, so as many steps as the table has
    /// values are enough; where values do lead back to themselves, the
    /// reading stops after that many.
    pub open spec fn simplify(self, v: ValueView) -> ValueView {
        simplify_within(self.values, v, self.values.len())
    }
}

/// One value of the table with the variables that hold it.
#[derive(Debug)]
struct TableEntry {
    value: Value,
    variables: Vec<String>,
}

/// The value table.
#[derive(Debug)]
pub struct Table {
    entries: Vec<TableEntry>,
    keys: Vec<String>,
    numbers: Vec<usize>,
}

/// The map that gives each key the number at its position.
pub open spec fn cloud_of(keys: Seq<Seq<char>>, numbers: Seq<usize>) -> Map<Seq<char>, usize> {
    Map::new(
        |k: Seq<char>| keys.contains(k),
        |k: Seq<char>| numbers[keys.index_of(k)],
    )
}

impl View for Table {
    type V = TableView;

    closed spec fn view(&self) -> TableView {
        TableView {
            values: Seq::new(self.entries.len() as nat, |i: int| self.entries[i].value@),
            variables: Seq::new(self.entries.len() as nat, |i: int| names(self.entries[i].variables@)),
            cloud: cloud_of(names(self.keys@), self.numbers@),
        }
    }
}

impl Table {
    /// The table is in order: each bound variable has one binding.
    pub closed spec fn wf(&self) -> bool {
        &&& self.keys.len() == self.numbers.len()
        &&& names(self.keys@).no_duplicates()
    }

    /// The empty table.
    pub fn new() -> (r: Table)
        ensures
            r.wf(),
            r@.values.len() == 0,
            r@.variables.len() == 0,
            r@.cloud == Map::<Seq<char>, usize>::empty(),
    {
        let r = Table { entries: Vec::new(), keys: Vec::new(), numbers: Vec::new() };
        proof {
            assert(r@.cloud =~= Map::<Seq<char>, usize>::empty());
        }
        r
    }

    /// What the view says of the bindings.
    proof fn lemma_cloud(&self)
        requires
            self.wf(),
        ensures
            forall|i: int|
                0 <= i < self.keys.len() ==> self@.cloud.contains_key(#[trigger] self.keys[i]@)
                    && self@.cloud[self.keys[i]@] == self.numbers[i],
            forall|k: Seq<char>| self@.cloud.contains_key(k) <==> names(self.keys@).contains(k),
            self@.values.len() == self.entries.len(),
            self@.variables.len() == self.entries.len(),
    {
        let ks = names(self.keys@);
        assert forall|i: int| 0 <= i < self.keys.len() implies self@.cloud.contains_key(
            #[trigger] self.keys[i]@,
        ) && self@.cloud[self.keys[i]@] == self.numbers[i] by {
            assert(ks[i] == self.keys[i]@);
            assert(ks.contains(self.keys[i]@));
            let j = ks.index_of(self.keys[i]@);
            assert(ks[j] == ks[i]);
        }
    }

    /// The number that `variable` is bound to.
    fn number_of(&self, variable: &String) -> (r: Option<usize>)
        requires
            self.wf(),
        ensures
            r == if self@.cloud.contains_key(variable@) {
                Some(self@.cloud[variable@])
            } else {
                None
            },
    {
        proof {
            self.lemma_cloud();
            lemma_first_index_found(names(self.keys@), variable@);
        }
        match find_name(&self.keys, variable) {
            Some(i) => {
                assert(names(self.keys@)[i as int] == self.keys[i as int]@);
                Some(self.numbers[i])
            },
            None => None,
        }
    }

    /// The number of `value`, if it is registered.
    fn find_value(&self, value: &Value) -> (r: Option<usize>)
        ensures
            r == self@.index_of(value@),
            r is Some ==> r.unwrap() < self.entries.len() && self@.values[r.unwrap() as int]
                == value@,
    {
        let mut i: usize = 0;
        while i < self.entries.len()
            invariant
                i <= self.entries.len(),
                forall|k: int| 0 <= k < i ==> self@.values[k] != value@,
            decreases self.entries.len() - i,
        {
            if self.entries[i].value.same(value) {
                proof {
                    lemma_first_index(self@.values, value@, i as int);
                }
                return Some(i);
            }
            i += 1;
        }
        proof {
            lemma_first_index_none(self@.values, value@);
        }
        None
    }

    /// The first variable that holds the value with number `i`.
    fn num_to_canonical_var(&self, i: usize) -> (r: Option<String>)
        ensures
            match r {
                Some(s) => self@.canonical_var(i as int) == Some(s@),
                None => self@.canonical_var(i as int) is None,
            },
    {
        if i < self.entries.len() && self.entries[i].variables.len() > 0 {
            assert(names(self.entries[i as int].variables@)[0] == self.entries[i as int].variables[0]@);
            Some(self.entries[i].variables[0].clone())
        } else {
            None
        }
    }

    /// Whether `variable` is bound to a value that the block does not compute.
    pub fn check_unknown(&self, variable: &String) -> (r: bool)
        requires
            self.wf(),
        ensures
            r == self@.check_unknown(variable@),
    {
        match self.number_of(variable) {
            Some(i) => if i < self.entries.len() {
                match &self.entries[i].value {
                    Value::Unknown(_) => true,
                    _ => false,
                }
            } else {
                false
            },
            None => false,
        }
    }

    /// The canonical variable of the value that `variable` is bound to.
    pub fn lookup(&self, variable: &String) -> (r: Option<String>)
        requires
            self.wf(),
        ensures
            match r {
                Some(s) => self@.lookup(variable@) == Some(s@),
                None => self@.lookup(variable@) is None,
            },
    {
        match self.number_of(variable) {
            Some(i) => self.num_to_canonical_var(i),
            None => None,
        }
    }

    /// The canonical variable of `value`, if it is registered and has one.
    pub fn get_canonical(&self, value: &Value) -> (r: Option<String>)
        ensures
            match r {
                Some(s) => self@.known_name(value@) == Some(s@),
                None => self@.known_name(value@) is None,
            },
    {
        match self.find_value(value) {
            Some(i) => self.num_to_canonical_var(i),
            None => None,
        }
    }

    /// Registers `value` unless it is registered, and gives the canonical
    /// variable that it had before the call.
    pub fn register_value(&mut self, value: &Value) -> (r: Option<String>)
        requires
            old(self).wf(),
        ensures
            final(self).wf(),
            final(self)@ == old(self)@.register(value@),
            match r {
                Some(s) => old(self)@.known_name(value@) == Some(s@),
                None => old(self)@.known_name(value@) is None,
            },
    {
        let known = self.get_canonical(value);
        match self.find_value(value) {
            Some(_) => {},
            None => {
                let ghost before = self@;
                self.entries.push(TableEntry { value: value.clone(), variables: Vec::new() });
                proof {
                    assert(self@.values =~= before.values.push(value@));
                    assert(names(Seq::<String>::empty()) =~= Seq::<Seq<char>>::empty());
                    assert(self@.variables =~~= before.variables.push(Seq::empty()));
                }
            },
        }
        known
    }

    /// Binds `variable` to the registered value `value`, unless it is bound
    /// already.
    pub fn add_binding(&mut self, variable: &String, value: &Value)
        requires
            old(self).wf(),
            old(self)@.index_of(value@) is Some,
        ensures
            final(self).wf(),
            final(self)@ == old(self)@.bind(variable@, value@),
    {
        proof {
            self.lemma_cloud();
        }
        let index = match self.find_value(value) {
            Some(i) => i,
            None => {
                return ;
            },
        };
        if self.number_of(variable).is_none() {
            let ghost before = self@;
            let ghost keys0 = names(self.keys@);
            let ghost numbers0 = self.numbers@;
            self.keys.push(variable.clone());
            self.numbers.push(index);
            proof {
                let keys1 = names(self.keys@);
                assert(keys1 =~= keys0.push(variable@));
                assert(keys1.no_duplicates());
                self.lemma_cloud();
                assert(self@.cloud =~= before.cloud.insert(variable@, index)) by {
                    assert forall|k: Seq<char>| self@.cloud.contains_key(k) <==> before.cloud.insert(
                        variable@,
                        index,
                    ).contains_key(k) by {
                        if keys1.contains(k) {
                            let i = choose|i: int| 0 <= i < keys1.len() && keys1[i] == k;
                            if i < keys0.len() {
                                assert(keys0[i] == k);
                            }
                        }
                        if keys0.contains(k) {
                            let i = choose|i: int| 0 <= i < keys0.len() && keys0[i] == k;
                            assert(keys1[i] == k);
                        }
                        if k == variable@ {
                            assert(keys1[keys1.len() - 1] == k);
                        }
                    }
                    assert forall|k: Seq<char>| self@.cloud.contains_key(k) implies self@.cloud[k]
                        == before.cloud.insert(variable@, index)[k] by {
                        let i = choose|i: int| 0 <= i < keys1.len() && keys1[i] == k;
                        assert(self.keys[i]@ == k);
                        if i < keys0.len() {
                            assert(keys0[i] == k);
                            assert(keys0.index_of(k) == i) by {
                                let j = keys0.index_of(k);
                                assert(keys0.contains(k));
                                assert(keys0[j] == keys0[i]);
                            }
                        }
                    }
                }
                assert(self@.values =~= before.values);
                assert(self@.variables =~= before.variables);
            }
        }
    }

    /// Adds `variable` to the variables that hold the registered value
    /// `value`.
    pub fn add_candidate(&mut self, variable: &String, value: &Value)
        requires
            old(self).wf(),
            old(self)@.index_of(value@) is Some,
        ensures
            final(self).wf(),
            final(self)@ == old(self)@.candidate(variable@, value@),
    {
        let index = match self.find_value(value) {
            Some(i) => i,
            None => {
                return ;
            },
        };
        let ghost before = self@;
        let ghost held = names(self.entries[index as int].variables@);
        self.entries[index].variables.push(variable.clone());
        proof {
            assert(names(self.entries[index as int].variables@) =~= held.push(variable@));
            assert(self@.values =~= before.values);
            assert(self@.variables =~= before.variables.update(index as int, held.push(variable@)));
        }
    }

    /// Removes the binding of `variable`, if it has one, and takes it from
    /// the variables that hold the value it was bound to.
    pub fn remove_binding(&mut self, variable: &String)
        requires
            old(self).wf(),
        ensures
            final(self).wf(),
            final(self)@ == old(self)@.unbind(variable@),
    {
        proof {
            self.lemma_cloud();
            lemma_first_index_found(names(self.keys@), variable@);
        }
        let position = match find_name(&self.keys, variable) {
            Some(p) => p,
            None => {
                return ;
            },
        };
        let ghost before = self@;
        let ghost keys0 = names(self.keys@);
        let ghost numbers0 = self.numbers@;
        assert(keys0[position as int] == self.keys[position as int]@);
        let prev = self.numbers[position];
        if prev < self.entries.len() {
            let kept = strings_without(&self.entries[prev].variables, variable);
            self.entries[prev].variables = kept;
        }
        self.keys.remove(position);
        self.numbers.remove(position);
        proof {
            let keys1 = names(self.keys@);
            assert(keys1 =~= keys0.remove(position as int));
            assert(self.numbers@ =~= numbers0.remove(position as int));
            assert(keys1.no_duplicates()) by {
                assert forall|i: int, j: int|
                    0 <= i < keys1.len() && 0 <= j < keys1.len() && i != j implies keys1[i]
                    != keys1[j] by {
                    let a = if i < position {
                        i
                    } else {
                        i + 1
                    };
                    let b = if j < position {
                        j
                    } else {
                        j + 1
                    };
                    assert(keys1[i] == keys0[a]);
                    assert(keys1[j] == keys0[b]);
                }
            }
            self.lemma_cloud();
            assert(self@.cloud =~= before.cloud.remove(variable@)) by {
                assert forall|k: Seq<char>| self@.cloud.contains_key(k) <==> before.cloud.remove(
                    variable@,
                ).contains_key(k) by {
                    if keys1.contains(k) {
                        let i = choose|i: int| 0 <= i < keys1.len() && keys1[i] == k;
                        let a = if i < position {
                            i
                        } else {
                            i + 1
                        };
                        assert(keys0[a] == k);
                        assert(keys0.contains(k));
                        assert(k != variable@) by {
                            if k == variable@ {
                                assert(keys0[a] == keys0[position as int]);
                            }
                        }
                    }
                    if keys0.contains(k) && k != variable@ {
                        let a = choose|a: int| 0 <= a < keys0.len() && keys0[a] == k;
                        let i = if a < position {
                            a
                        } else {
                            a - 1
                        };
                        assert(keys1[i] == k);
                    }
                }
                assert forall|k: Seq<char>| self@.cloud.contains_key(k) implies self@.cloud[k]
                    == before.cloud.remove(variable@)[k] by {
                    let i = choose|i: int| 0 <= i < keys1.len() && keys1[i] == k;
                    assert(self.keys[i]@ == k);
                    let a = if i < position {
                        i
                    } else {
                        i + 1
                    };
                    assert(keys0[a] == k);
                    assert(keys0.contains(k));
                    assert(keys0.index_of(k) == a) by {
                        let j = keys0.index_of(k);
                        assert(keys0[j] == keys0[a]);
                    }
                }
            }
            assert(self@.values =~= before.values);
            if prev < before.variables.len() {
                assert(self@.variables =~= before.variables.update(
                    prev as int,
                    without(before.variables[prev as int], variable@),
                ));
            } else {
                assert(self@.variables =~= before.variables);
            }
        }
    }

    /// The simplified form of `value`, read through at most `depth` values
    /// of the table.
    fn simplify_under(&self, value: &Value, depth: usize) -> (r: Value)
        ensures
            r@ == simplify_within(self@.values, value@, depth as nat),
        decreases depth,
    {
        match value {
            Value::Operation { kind, op, args } => {
                if depth == 0 {
                    value.clone()
                } else if *op == ValueOps::Id {
                    if args.len() >= 1 && args[0] < self.entries.len() {
                        self.simplify_under(&self.entries[args[0]].value, depth - 1)
                    } else {
                        value.clone()
                    }
                } else if args.len() == 2 {
                    if args[0] < self.entries.len() && args[1] < self.entries.len() {
                        let a = self.simplify_under(&self.entries[args[0]].value, depth - 1);
                        let b = self.simplify_under(&self.entries[args[1]].value, depth - 1);
                        fold_two(*op, &a, &b, value)
                    } else {
                        value.clone()
                    }
                } else if args.len() == 1 {
                    if args[0] < self.entries.len() {
                        let a = self.simplify_under(&self.entries[args[0]].value, depth - 1);
                        fold_one(*op, &a, value)
                    } else {
                        value.clone()
                    }
                } else {
                    value.clone()
                }
            },
            _ => value.clone(),
        }
    }

    /// The simplified form of `value`: constants folded, identities
    /// removed, copies followed through the table.
    pub fn simplify(&self, value: &Value) -> (r: Value)
        ensures
            r@ == self@.simplify(value@),
    {
        self.simplify_under(value, self.entries.len())
    }

    /// The value that an instruction computes.
    pub fn create_value(&self, instr: &Instruction) -> (r: Option<Value>)
        requires
            self.wf(),
        ensures
            match r {
                Some(v) => self@.create_value(instr@) == Some(v@),
                None => self@.create_value(instr@) is None,
            },
    {
        match instr {
            Instruction::Constant { dest, const_type, value } => {
                let int_literal = match value {
                    Literal::Int(_) => true,
                    _ => false,
                };
                if const_type.same(&Type::Float) && int_literal {
                    Some(Value::Unknown(dest.clone()))
                } else {
                    Some(Value::Constant(*value))
                }
            },
            Instruction::Value { dest, op_type, op, args, .. } => {
                if *op == ValueOps::Alloc || *op == ValueOps::Call {
                    Some(Value::Unknown(dest.clone()))
                } else {
                    let mut numbers: Vec<usize> = Vec::new();
                    let mut i: usize = 0;
                    let ghost wanted = names(args@);
                    while i < args.len()
                        invariant
                            i <= args.len(),
                            self.wf(),
                            wanted == names(args@),
                            numbers_of(self@.cloud, wanted) is None ==> self@.create_value(instr@)
                                is None,
                            numbers.len() == i,
                            forall|k: int|
                                0 <= k < i ==> self@.cloud.contains_key(#[trigger] wanted[k])
                                    && numbers[k] == self@.cloud[wanted[k]],
                        decreases args.len() - i,
                    {
                        assert(wanted[i as int] == args[i as int]@);
                        match self.number_of(&args[i]) {
                            Some(n) => {
                                numbers.push(n);
                            },
                            None => {
                                assert(!self@.cloud.contains_key(wanted[i as int]));
                                assert(numbers_of(self@.cloud, wanted) is None);
                                return None;
                            },
                        }
                        i += 1;
                    }
                    proof {
                        assert(numbers@ =~= numbers_of(self@.cloud, wanted).unwrap());
                    }
                    Some(Value::Operation { kind: op_type.clone(), op: *op, args: numbers })
                }
            },
            Instruction::Effect { .. } => None,
        }
    }
}

/// The strings of `v` that are not `x`, in their order.
fn strings_without(v: &Vec<String>, x: &String) -> (r: Vec<String>)
    ensures
        names(r@) == without(names(v@), x@),
{
    let mut r: Vec<String> = Vec::new();
    let mut i: usize = 0;
    proof {
        assert(names(v@).take(0) =~= Seq::empty());
        assert(names(r@) =~= Seq::empty());
    }
    while i < v.len()
        invariant
            i <= v.len(),
            names(r@) == without(names(v@).take(i as int), x@),
        decreases v.len() - i,
    {
        let ghost before = names(r@);
        proof {
            assert(names(v@).take(i + 1).drop_last() =~= names(v@).take(i as int));
            assert(names(v@).take(i + 1).last() == v[i as int]@);
        }
        if v[i] != *x {
            r.push(v[i].clone());
            assert(names(r@) =~= before.push(v[i as int]@));
        }
        i += 1;
    }
    assert(names(v@).take(i as int) =~= names(v@));
    r
}

} // verus!
