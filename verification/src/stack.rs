//! The bookkeeping of renaming: for each variable the names that stand for
//! it now, innermost last, and the number of names given out for it.
use crate::assoc::{assoc, lemma_assoc_at, lemma_assoc_push, lemma_assoc_update};
use crate::ir::{find_name, lemma_first_index_found, names};
use vstd::prelude::*;

verus! {

/// For each variable the stack of the names that stand for it.
#[derive(Debug)]
pub struct VariableStack {
    keys: Vec<String>,
    stacks: Vec<Vec<String>>,
}

/// The stacks in which each variable of `init` stands for itself.
pub open spec fn initial_stacks(init: Seq<Seq<char>>) -> Map<Seq<char>, Seq<Seq<char>>>
    decreases init.len(),
{
    if init.len() == 0 {
        Map::empty()
    } else {
        initial_stacks(init.drop_last()).insert(init.last(), seq![init.last()])
    }
}

/// The stack of `variable`; empty if it has none.
pub open spec fn stack_of(m: Map<Seq<char>, Seq<Seq<char>>>, variable: Seq<char>) -> Seq<Seq<char>> {
    if m.contains_key(variable) {
        m[variable]
    } else {
        Seq::empty()
    }
}

/// The name that stands for `variable` now.
pub open spec fn top_of(m: Map<Seq<char>, Seq<Seq<char>>>, variable: Seq<char>) -> Option<Seq<char>> {
    if stack_of(m, variable).len() > 0 {
        Some(stack_of(m, variable).last())
    } else {
        None
    }
}

/// The stacks with `value` on top of the stack of `variable`.
pub open spec fn pushed(m: Map<Seq<char>, Seq<Seq<char>>>, variable: Seq<char>, value: Seq<char>) -> Map<
    Seq<char>,
    Seq<Seq<char>>,
> {
    m.insert(variable, stack_of(m, variable).push(value))
}

/// The stacks with the `n` topmost names, or all if there are fewer, taken
/// from the stack of `variable`.
pub open spec fn popped(m: Map<Seq<char>, Seq<Seq<char>>>, variable: Seq<char>, n: nat) -> Map<
    Seq<char>,
    Seq<Seq<char>>,
> {
    if m.contains_key(variable) {
        m.insert(
            variable,
            m[variable].take(
                if m[variable].len() >= n {
                    m[variable].len() - n
                } else {
                    0
                },
            ),
        )
    } else {
        m
    }
}

impl VariableStack {
    spec fn lists(&self) -> Seq<Seq<Seq<char>>> {
        Seq::new(self.stacks.len() as nat, |i: int| names(self.stacks[i]@))
    }

    /// The stacks are in order: each variable has one stack.
    pub closed spec fn wf(&self) -> bool {
        &&& self.keys.len() == self.stacks.len()
        &&& names(self.keys@).no_duplicates()
    }

    /// The stack of each variable that has one.
    pub closed spec fn view(&self) -> Map<Seq<char>, Seq<Seq<char>>> {
        assoc(names(self.keys@), self.lists())
    }

    fn empty() -> (r: Self)
        ensures
            r.wf(),
            r@ == Map::<Seq<char>, Seq<Seq<char>>>::empty(),
    {
        let r = VariableStack { keys: Vec::new(), stacks: Vec::new() };
        assert(r@ =~= Map::<Seq<char>, Seq<Seq<char>>>::empty());
        r
    }

    /// Where the stack of `variable` is kept.
    fn position(&self, variable: &String) -> (r: Option<usize>)
        requires
            self.wf(),
        ensures
            match r {
                Some(i) => i < self.keys.len() && self.keys[i as int]@ == variable@
                    && self@.contains_key(variable@) && self@[variable@] == names(
                    self.stacks[i as int]@,
                ),
                None => !self@.contains_key(variable@) && !names(self.keys@).contains(variable@),
            },
    {
        proof {
            lemma_first_index_found(names(self.keys@), variable@);
        }
        let r = find_name(&self.keys, variable);
        proof {
            match r {
                Some(i) => {
                    lemma_assoc_at(names(self.keys@), self.lists(), i as int);
                },
                None => {},
            }
        }
        r
    }

    /// Replaces the stack of the variable at `i`.
    fn put(&mut self, i: usize, stack: Vec<String>)
        requires
            old(self).wf(),
            i < old(self).keys.len(),
        ensures
            final(self).wf(),
            final(self)@ == old(self)@.insert(old(self).keys[i as int]@, names(stack@)),
    {
        let ghost lists0 = self.lists();
        proof {
            lemma_assoc_update(names(self.keys@), lists0, i as int, names(stack@));
        }
        self.stacks[i] = stack;
        assert(self.lists() =~= lists0.update(i as int, names(stack@)));
    }

    /// Adds a variable that has no stack, with its stack.
    fn add(&mut self, variable: String, stack: Vec<String>)
        requires
            old(self).wf(),
            !old(self)@.contains_key(variable@),
        ensures
            final(self).wf(),
            final(self)@ == old(self)@.insert(variable@, names(stack@)),
    {
        let ghost keys0 = names(self.keys@);
        let ghost lists0 = self.lists();
        proof {
            lemma_assoc_push(keys0, lists0, variable@, names(stack@));
        }
        self.keys.push(variable);
        self.stacks.push(stack);
        assert(names(self.keys@) =~= keys0.push(variable@));
        assert(self.lists() =~= lists0.push(names(stack@)));
    }

    /// The stacks at the start of a function: each parameter stands for
    /// itself.
    pub fn new(init: &Vec<String>) -> (r: Self)
        ensures
            r.wf(),
            r@ == initial_stacks(names(init@)),
    {
        let mut r = VariableStack::empty();
        let mut i: usize = 0;
        assert(names(init@).take(0) =~= Seq::empty());
        while i < init.len()
            invariant
                i <= init.len(),
                r.wf(),
                r@ == initial_stacks(names(init@).take(i as int)),
            decreases init.len() - i,
        {
            proof {
                assert(names(init@).take(i + 1).drop_last() =~= names(init@).take(i as int));
                assert(names(init@).take(i + 1).last() == init[i as int]@);
            }
            let mut only: Vec<String> = Vec::new();
            only.push(init[i].clone());
            assert(names(only@) =~= seq![init[i as int]@]);
            match r.position(&init[i]) {
                Some(p) => {
                    r.put(p, only);
                },
                None => {
                    r.add(init[i].clone(), only);
                },
            }
            i += 1;
        }
        assert(names(init@).take(i as int) =~= names(init@));
        r
    }

    /// The name that stands for `variable` now, if any does.
    pub fn get_last(&self, variable: &String) -> (r: Option<String>)
        requires
            self.wf(),
        ensures
            match r {
                Some(s) => top_of(self@, variable@) == Some(s@),
                None => top_of(self@, variable@) is None,
            },
    {
        match self.position(variable) {
            Some(i) => {
                let n = self.stacks[i].len();
                if n > 0 {
                    assert(names(self.stacks[i as int]@)[n - 1] == self.stacks[i as int][n - 1]@);
                    Some(self.stacks[i][n - 1].clone())
                } else {
                    None
                }
            },
            None => None,
        }
    }

    /// Puts `value` on top of the stack of `variable`.
    pub fn push(&mut self, variable: &String, value: String)
        requires
            old(self).wf(),
        ensures
            final(self).wf(),
            final(self)@ == pushed(old(self)@, variable@, value@),
    {
        match self.position(variable) {
            Some(i) => {
                let ghost lists0 = self.lists();
                let ghost held = names(self.stacks[i as int]@);
                proof {
                    lemma_assoc_update(names(self.keys@), lists0, i as int, held.push(value@));
                }
                self.stacks[i].push(value);
                assert(names(self.stacks[i as int]@) =~= held.push(value@));
                assert(self.lists() =~= lists0.update(i as int, held.push(value@)));
            },
            None => {
                let mut only: Vec<String> = Vec::new();
                only.push(value);
                assert(names(only@) =~= Seq::<Seq<char>>::empty().push(value@));
                self.add(variable.clone(), only);
            },
        }
    }

    /// Takes the `n` topmost names, or all if there are fewer, from the
    /// stack of `variable`.
    pub fn pop(&mut self, variable: &String, n: usize)
        requires
            old(self).wf(),
        ensures
            final(self).wf(),
            final(self)@ == popped(old(self)@, variable@, n as nat),
    {
        match self.position(variable) {
            Some(i) => {
                let ghost lists0 = self.lists();
                let ghost held = names(self.stacks[i as int]@);
                let len = self.stacks[i].len();
                let keep = if len >= n {
                    len - n
                } else {
                    0
                };
                proof {
                    lemma_assoc_update(names(self.keys@), lists0, i as int, held.take(keep as int));
                }
                self.stacks[i].truncate(keep);
                assert(names(self.stacks[i as int]@) =~= held.take(keep as int));
                assert(self.lists() =~= lists0.update(i as int, held.take(keep as int)));
            },
            None => {},
        }
    }
}

/// For each variable the number of names given out for it.
#[derive(Debug)]
pub struct VariableCounter {
    keys: Vec<String>,
    counts: Vec<usize>,
}

/// The number of names given out for `variable`.
pub open spec fn count_of(m: Map<Seq<char>, usize>, variable: Seq<char>) -> usize {
    if m.contains_key(variable) {
        m[variable]
    } else {
        0
    }
}

/// The count after one more name; the largest number stays.
pub open spec fn next_count(c: usize) -> usize {
    if c < usize::MAX {
        (c + 1) as usize
    } else {
        c
    }
}

impl VariableCounter {
    /// The counter is in order: each variable has one count.
    pub closed spec fn wf(&self) -> bool {
        &&& self.keys.len() == self.counts.len()
        &&& names(self.keys@).no_duplicates()
    }

    /// The count of each variable that has one.
    pub closed spec fn view(&self) -> Map<Seq<char>, usize> {
        assoc(names(self.keys@), self.counts@)
    }

    /// A counter that has given out no name.
    pub fn new() -> (r: Self)
        ensures
            r.wf(),
            r@ == Map::<Seq<char>, usize>::empty(),
    {
        let r = VariableCounter { keys: Vec::new(), counts: Vec::new() };
        assert(r@ =~= Map::<Seq<char>, usize>::empty());
        r
    }

    /// The number of the next name for `variable`, which is the number of
    /// names given out for it so far; the count goes up by one.
    pub fn inc(&mut self, variable: String) -> (r: usize)
        requires
            old(self).wf(),
        ensures
            final(self).wf(),
            r == count_of(old(self)@, variable@),
            final(self)@ == old(self)@.insert(variable@, next_count(r)),
    {
        proof {
            lemma_first_index_found(names(self.keys@), variable@);
        }
        match find_name(&self.keys, &variable) {
            Some(i) => {
                let ghost counts0 = self.counts@;
                let c = self.counts[i];
                let next = if c < usize::MAX {
                    c + 1
                } else {
                    c
                };
                proof {
                    lemma_assoc_at(names(self.keys@), counts0, i as int);
                    lemma_assoc_update(names(self.keys@), counts0, i as int, next);
                }
                self.counts[i] = next;
                assert(self.counts@ =~= counts0.update(i as int, next));
                c
            },
            None => {
                let ghost keys0 = names(self.keys@);
                let ghost counts0 = self.counts@;
                proof {
                    lemma_assoc_push(keys0, counts0, variable@, 1usize);
                }
                self.keys.push(variable);
                self.counts.push(1);
                assert(names(self.keys@) =~= keys0.push(variable@));
                0
            },
        }
    }
}

} // verus!
