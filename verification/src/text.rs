//! Joining the parts of the right-hand side of an instruction into text.
use crate::ir::names;
use vstd::prelude::*;

verus! {

/// The strings one after the other with one space between each two.
pub open spec fn spaced(parts: Seq<Seq<char>>) -> Seq<char>
    decreases parts.len(),
{
    if parts.len() == 0 {
        Seq::empty()
    } else if parts.len() == 1 {
        parts[0]
    } else {
        spaced(parts.drop_last()) + seq![' '] + parts.last()
    }
}

/// The strings of `parts` that are not empty, in their order.
pub open spec fn filled_parts(parts: Seq<Seq<char>>) -> Seq<Seq<char>>
    decreases parts.len(),
{
    if parts.len() == 0 {
        Seq::empty()
    } else if parts.last().len() > 0 {
        filled_parts(parts.drop_last()).push(parts.last())
    } else {
        filled_parts(parts.drop_last())
    }
}

/// Each string with `mark` before it.
pub open spec fn marked(mark: char, terms: Seq<Seq<char>>) -> Seq<Seq<char>> {
    Seq::new(terms.len(), |i: int| seq![mark] + terms[i])
}

/// The strings one after the other with one space between each two.
pub fn join_spaced(parts: &Vec<String>) -> (r: String)
    ensures
        r@ == spaced(names(parts@)),
{
    let mut r = String::new();
    let mut i: usize = 0;
    proof {
        assert(names(parts@).take(0) =~= Seq::empty());
        reveal_strlit(" ");
        assert(" "@ =~= seq![' ']);
    }
    while i < parts.len()
        invariant
            i <= parts.len(),
            r@ == spaced(names(parts@).take(i as int)),
            " "@ == seq![' '],
        decreases parts.len() - i,
    {
        proof {
            let p = names(parts@);
            assert(p.take(i + 1).drop_last() =~= p.take(i as int));
            assert(p.take(i + 1).last() == parts[i as int]@);
            assert(p.take(i + 1)[0] == p[0]);
        }
        if i > 0 {
            r = r.concat(" ");
        }
        r = r.concat(parts[i].as_str());
        proof {
            if i == 0 {
                assert(Seq::<char>::empty() + parts[i as int]@ =~= parts[i as int]@);
            }
        }
        i += 1;
    }
    assert(names(parts@).take(i as int) =~= names(parts@));
    r
}

/// Transforms each term and joins the results with spaces.
pub fn fold_terms<F: Fn(&String) -> String>(terms: &Vec<String>, transform: F) -> (r: String)
    requires
        forall|i: int| 0 <= i < terms.len() ==> call_requires(transform, (&#[trigger] terms[i],)),
    ensures
        exists|outs: Seq<String>|
            outs.len() == terms.len() && (forall|i: int|
                0 <= i < terms.len() ==> call_ensures(transform, (&terms[i],), #[trigger] outs[i]))
                && r@ == spaced(names(outs)),
{
    let mut outs: Vec<String> = Vec::new();
    let mut i: usize = 0;
    while i < terms.len()
        invariant
            i <= terms.len(),
            outs.len() == i,
            forall|k: int| 0 <= k < terms.len() ==> call_requires(transform, (&#[trigger] terms[k],)),
            forall|k: int| 0 <= k < i ==> call_ensures(transform, (&terms[k],), #[trigger] outs[k]),
        decreases terms.len() - i,
    {
        let out = transform(&terms[i]);
        outs.push(out);
        i += 1;
    }
    let r = join_spaced(&outs);
    proof {
        let witness = outs@;
        assert(witness.len() == terms.len() && (forall|k: int|
            0 <= k < terms.len() ==> call_ensures(transform, (&terms[k],), #[trigger] witness[k]))
            && r@ == spaced(names(witness)));
    }
    r
}

/// The text that the parts of a right-hand side give: the operation, the
/// functions each with `@` before it, the arguments, and the labels each
/// with `.` before it, with one space between each two. A part that is
/// empty is passed over, so a branch on `c` to `then` and `else` reads
/// `br c .then .else`.
pub open spec fn rhs_text(
    op: Seq<char>,
    funcs: Seq<Seq<char>>,
    args: Seq<Seq<char>>,
    labels: Seq<Seq<char>>,
) -> Seq<char> {
    spaced(filled_parts(seq![op, spaced(marked('@', funcs)), spaced(args), spaced(marked('.', labels))]))
}

/// The strings of `parts` that are not empty, in their order.
fn keep_filled(parts: Vec<String>) -> (r: Vec<String>)
    ensures
        names(r@) == filled_parts(names(parts@)),
{
    let mut r: Vec<String> = Vec::new();
    let mut i: usize = 0;
    proof {
        assert(names(parts@).take(0) =~= Seq::empty());
        assert(names(r@) =~= Seq::empty());
    }
    while i < parts.len()
        invariant
            i <= parts.len(),
            names(r@) == filled_parts(names(parts@).take(i as int)),
        decreases parts.len() - i,
    {
        let ghost before = names(r@);
        proof {
            let p = names(parts@);
            assert(p.take(i + 1).drop_last() =~= p.take(i as int));
            assert(p.take(i + 1).last() == parts[i as int]@);
        }
        if !parts[i].as_str().is_empty() {
            r.push(parts[i].clone());
            assert(names(r@) =~= before.push(parts[i as int]@));
        }
        i += 1;
    }
    assert(names(parts@).take(i as int) =~= names(parts@));
    r
}

/// The right-hand side of an instruction as text.
pub fn format_rhs(op: String, funcs: &Vec<String>, args: &Vec<String>, labels: &Vec<String>) -> (r:
    String)
    ensures
        r@ == rhs_text(op@, names(funcs@), names(args@), names(labels@)),
{
    let with_at = |s: &String| -> (r: String)
        ensures
            r@ == seq!['@'] + s@,
        {
            proof {
                reveal_strlit("@");
                assert("@"@ =~= seq!['@']);
            }
            String::from_str("@").concat(s.as_str())
        };
    let plain = |s: &String| -> (r: String)
        ensures
            r@ == s@,
        { s.clone() };
    let with_dot = |s: &String| -> (r: String)
        ensures
            r@ == seq!['.'] + s@,
        {
            proof {
                reveal_strlit(".");
                assert("."@ =~= seq!['.']);
            }
            String::from_str(".").concat(s.as_str())
        };
    let f = fold_terms(funcs, with_at);
    let a = fold_terms(args, plain);
    let l = fold_terms(labels, with_dot);
    proof {
        let fo = choose|outs: Seq<String>|
            outs.len() == funcs.len() && (forall|i: int|
                0 <= i < funcs.len() ==> call_ensures(with_at, (&funcs[i],), #[trigger] outs[i]))
                && f@ == spaced(names(outs));
        assert(names(fo) =~= marked('@', names(funcs@)));
        let ao = choose|outs: Seq<String>|
            outs.len() == args.len() && (forall|i: int|
                0 <= i < args.len() ==> call_ensures(plain, (&args[i],), #[trigger] outs[i])) && a@
                == spaced(names(outs));
        assert(names(ao) =~= names(args@));
        let lo = choose|outs: Seq<String>|
            outs.len() == labels.len() && (forall|i: int|
                0 <= i < labels.len() ==> call_ensures(with_dot, (&labels[i],), #[trigger] outs[i]))
                && l@ == spaced(names(outs));
        assert(names(lo) =~= marked('.', names(labels@)));
    }
    let mut parts: Vec<String> = Vec::new();
    parts.push(op);
    parts.push(f);
    parts.push(a);
    parts.push(l);
    assert(names(parts@) =~= seq![op@, f@, a@, l@]);
    join_spaced(&keep_filled(parts))
}

} // verus!
