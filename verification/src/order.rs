//! Sorting, through `itertools`: numbers in ascending order and names in
//! the order of their characters.
use crate::blocks::{distinct, lemma_distinct};
use crate::ir::names;
use itertools::Itertools;
use vstd::prelude::*;
use vstd::relations::sorted_by;
use vstd::relations::total_ordering;

verus! {

/// The order of the numbers.
pub open spec fn number_le() -> spec_fn(usize, usize) -> bool {
    |a: usize, b: usize| a <= b
}

/// The numbers of `s` in ascending order.
pub open spec fn sorted_numbers(s: Seq<usize>) -> Seq<usize> {
    s.sort_by(number_le())
}

/// `a` comes before `b`, or is `b`, in the order of strings: the first
/// character in which the two differ decides, by its code point; a string
/// comes before every string that it begins.
pub open spec fn text_le(a: Seq<char>, b: Seq<char>) -> bool
    decreases a.len(),
{
    if a.len() == 0 {
        true
    } else if b.len() == 0 {
        false
    } else if a[0] == b[0] {
        text_le(a.drop_first(), b.drop_first())
    } else {
        (a[0] as u32) < (b[0] as u32)
    }
}

/// The order of strings as a relation.
pub open spec fn name_le() -> spec_fn(Seq<char>, Seq<char>) -> bool {
    |a: Seq<char>, b: Seq<char>| text_le(a, b)
}

/// `Itertools::sorted` on numbers: the same numbers, as often as before,
/// in ascending order.
#[verifier::external_body]
fn sorted_by_itertools(v: Vec<usize>) -> (r: Vec<usize>)
    ensures
        r@.to_multiset() == v@.to_multiset(),
        sorted_by(r@, number_le()),
{
    v.into_iter().sorted().collect()
}

/// `Itertools::sorted` on strings: the same strings, as often as before, in
/// the order that `Ord` for `String` gives, which is `text_le`.
#[verifier::external_body]
fn names_sorted_by_itertools(v: Vec<String>) -> (r: Vec<String>)
    ensures
        names(r@).to_multiset() == names(v@).to_multiset(),
        sorted_by(names(r@), name_le()),
{
    v.into_iter().sorted().collect()
}

/// The numbers of `v` in ascending order.
pub fn sort_numbers(v: Vec<usize>) -> (r: Vec<usize>)
    ensures
        r@ == sorted_numbers(v@),
        r@.to_multiset() == v@.to_multiset(),
        sorted_by(r@, number_le()),
{
    let r = sorted_by_itertools(v);
    proof {
        assert(total_ordering(number_le()));
        v@.lemma_sort_by_ensures(number_le());
        vstd::seq_lib::lemma_sorted_unique(r@, sorted_numbers(v@), number_le());
    }
    r
}

/// Two strings of which each comes before the other, or is it, are one.
pub proof fn lemma_text_le_antisymmetric(a: Seq<char>, b: Seq<char>)
    requires
        text_le(a, b),
        text_le(b, a),
    ensures
        a == b,
    decreases a.len(),
{
    if a.len() == 0 || b.len() == 0 {
        assert(a =~= b);
    } else {
        lemma_text_le_antisymmetric(a.drop_first(), b.drop_first());
        assert(a =~= seq![a[0]] + a.drop_first());
        assert(b =~= seq![b[0]] + b.drop_first());
    }
}

/// Every string comes before itself, or is it.
pub proof fn lemma_text_le_reflexive(a: Seq<char>)
    ensures
        text_le(a, a),
    decreases a.len(),
{
    if a.len() > 0 {
        lemma_text_le_reflexive(a.drop_first());
    }
}

/// Of two strings one comes before the other, or is it.
pub proof fn lemma_text_le_total(a: Seq<char>, b: Seq<char>)
    ensures
        text_le(a, b) || text_le(b, a),
    decreases a.len(),
{
    if a.len() > 0 && b.len() > 0 {
        if a[0] == b[0] {
            lemma_text_le_total(a.drop_first(), b.drop_first());
        } else {
            let x = a[0];
            let y = b[0];
            vstd::utf8::char_u32_cast(x, x as u32);
            vstd::utf8::char_u32_cast(y, y as u32);
        }
    }
}

/// What comes before a string comes before what the string comes before.
pub proof fn lemma_text_le_transitive(a: Seq<char>, b: Seq<char>, c: Seq<char>)
    requires
        text_le(a, b),
        text_le(b, c),
    ensures
        text_le(a, c),
    decreases a.len(),
{
    if a.len() > 0 && b.len() > 0 && c.len() > 0 && a[0] == b[0] && b[0] == c[0] {
        lemma_text_le_transitive(a.drop_first(), b.drop_first(), c.drop_first());
    }
}

/// The order of strings, turned round.
pub open spec fn name_ge() -> spec_fn(Seq<char>, Seq<char>) -> bool {
    |a: Seq<char>, b: Seq<char>| text_le(b, a)
}

/// The strings of a sequence can be listed in descending order.
pub proof fn lemma_desc_listing_exists(s: Seq<Seq<char>>)
    ensures
        is_desc_listing(desc_listing(s.to_set()), s.to_set()),
{
    broadcast use vstd::seq_lib::group_to_multiset_ensures;

    let p = s.to_set();
    let d = distinct(s);
    let ge = name_ge();
    assert(total_ordering(ge)) by {
        assert forall|x: Seq<char>| #[trigger] ge(x, x) by {
            lemma_text_le_reflexive(x);
        }
        assert forall|x: Seq<char>, y: Seq<char>| #[trigger] ge(x, y) && #[trigger] ge(y, x) implies x
            == y by {
            lemma_text_le_antisymmetric(x, y);
        }
        assert forall|x: Seq<char>, y: Seq<char>, z: Seq<char>| #[trigger]
            ge(x, y) && #[trigger] ge(y, z) implies ge(x, z) by {
            lemma_text_le_transitive(z, y, x);
        }
        assert forall|x: Seq<char>, y: Seq<char>| #[trigger] ge(x, y) || #[trigger] ge(y, x) by {
            lemma_text_le_total(x, y);
        }
    }
    lemma_distinct(s);
    d.lemma_sort_by_ensures(ge);
    let t = d.sort_by(ge);
    d.lemma_multiset_has_no_duplicates();
    t.lemma_multiset_has_no_duplicates_conv();
    assert forall|i: int, j: int| 0 <= i < j < t.len() implies text_le(t[j], t[i]) by {
        assert(ge(t[i], t[j]));
    }
    assert forall|x: Seq<char>| t.contains(x) <==> p.contains(x) by {
        assert(t.contains(x) <==> t.to_multiset().count(x) > 0);
        assert(d.contains(x) <==> d.to_multiset().count(x) > 0);
        assert(d.contains(x) <==> s.contains(x));
    }
    assert(is_desc_listing(t, p));
}

/// `s` lists the members of `p`, each once, in descending order.
pub open spec fn is_desc_listing(s: Seq<Seq<char>>, p: Set<Seq<char>>) -> bool {
    &&& s.no_duplicates()
    &&& forall|i: int, j: int| 0 <= i < j < s.len() ==> text_le(s[j], s[i])
    &&& forall|x: Seq<char>| s.contains(x) <==> p.contains(x)
}

/// The members of a finite set of strings in descending order.
pub open spec fn desc_listing(p: Set<Seq<char>>) -> Seq<Seq<char>> {
    choose|s: Seq<Seq<char>>| is_desc_listing(s, p)
}

/// A set of strings has at most one descending listing.
pub proof fn lemma_desc_listing_unique(a: Seq<Seq<char>>, b: Seq<Seq<char>>, p: Set<Seq<char>>)
    requires
        is_desc_listing(a, p),
        is_desc_listing(b, p),
    ensures
        a == b,
    decreases a.len(),
{
    if a.len() == 0 {
        if b.len() > 0 {
            assert(b.contains(b[0]));
            assert(a.contains(b[0]));
        }
        assert(a =~= b);
    } else {
        let x = a.last();
        assert(a.contains(x));
        assert(b.contains(x));
        let k = choose|k: int| 0 <= k < b.len() && b[k] == x;
        assert(k == b.len() - 1) by {
            if k < b.len() - 1 {
                let y = b.last();
                assert(text_le(y, x));
                assert(b.contains(y));
                assert(a.contains(y));
                let m = choose|m: int| 0 <= m < a.len() && a[m] == y;
                if m < a.len() - 1 {
                    assert(text_le(a[a.len() - 1], a[m]));
                    lemma_text_le_antisymmetric(x, y);
                }
                assert(b[k] == b[b.len() - 1]);
            }
        }
        let q = p.remove(x);
        assert(is_desc_listing(a.drop_last(), q)) by {
            assert forall|z: Seq<char>| a.drop_last().contains(z) <==> q.contains(z) by {
                if a.drop_last().contains(z) {
                    let m = choose|m: int| 0 <= m < a.len() - 1 && a.drop_last()[m] == z;
                    assert(a[m] == z);
                    assert(a.contains(z));
                }
                if q.contains(z) {
                    assert(a.contains(z));
                    let m = choose|m: int| 0 <= m < a.len() && a[m] == z;
                    assert(a.drop_last()[m] == z);
                }
            }
        }
        assert(is_desc_listing(b.drop_last(), q)) by {
            assert forall|z: Seq<char>| b.drop_last().contains(z) <==> q.contains(z) by {
                if b.drop_last().contains(z) {
                    let m = choose|m: int| 0 <= m < b.len() - 1 && b.drop_last()[m] == z;
                    assert(b[m] == z);
                    assert(b.contains(z));
                }
                if q.contains(z) {
                    assert(b.contains(z));
                    let m = choose|m: int| 0 <= m < b.len() && b[m] == z;
                    assert(b.drop_last()[m] == z);
                }
            }
        }
        lemma_desc_listing_unique(a.drop_last(), b.drop_last(), q);
        assert(a =~= a.drop_last().push(x));
        assert(b =~= b.drop_last().push(x));
    }
}

/// The strings of `v`, which holds none twice, in descending order.
pub fn list_descending(v: Vec<String>) -> (r: Vec<String>)
    requires
        names(v@).no_duplicates(),
    ensures
        is_desc_listing(names(r@), names(v@).to_set()),
        names(r@) == desc_listing(names(v@).to_set()),
{
    let ghost before = names(v@);
    let sorted = names_sorted_by_itertools(v);
    let ghost up = names(sorted@);
    let mut r: Vec<String> = Vec::new();
    let mut i: usize = sorted.len();
    while i > 0
        invariant
            i <= sorted.len(),
            r.len() == sorted.len() - i,
            forall|k: int| 0 <= k < r.len() ==> r[k]@ == sorted[sorted.len() - 1 - k]@,
        decreases i,
    {
        i -= 1;
        r.push(sorted[i].clone());
    }
    proof {
        broadcast use vstd::seq_lib::group_to_multiset_ensures;

        let down = names(r@);
        let p = before.to_set();
        before.lemma_multiset_has_no_duplicates();
        up.lemma_multiset_has_no_duplicates_conv();
        assert forall|k: int| 0 <= k < down.len() implies down[k] == up[up.len() - 1 - k] by {}
        assert(down.no_duplicates()) by {
            assert forall|a: int, b: int|
                0 <= a < down.len() && 0 <= b < down.len() && a != b implies down[a] != down[b] by {
                assert(up[up.len() - 1 - a] != up[up.len() - 1 - b]);
            }
        }
        assert forall|a: int, b: int| 0 <= a < b < down.len() implies text_le(down[b], down[a]) by {
            assert(name_le()(up[up.len() - 1 - b], up[up.len() - 1 - a]));
        }
        assert forall|x: Seq<char>| down.contains(x) <==> p.contains(x) by {
            assert(up.contains(x) <==> up.to_multiset().count(x) > 0);
            assert(before.contains(x) <==> before.to_multiset().count(x) > 0);
            if down.contains(x) {
                let k = choose|k: int| 0 <= k < down.len() && down[k] == x;
                assert(up[up.len() - 1 - k] == x);
            }
            if up.contains(x) {
                let k = choose|k: int| 0 <= k < up.len() && up[k] == x;
                assert(down[up.len() - 1 - k] == x);
            }
        }
        assert(is_desc_listing(down, p));
        assert(is_desc_listing(desc_listing(p), p));
        lemma_desc_listing_unique(down, desc_listing(p), p);
    }
    r
}

/// `s` lists the strings of `p`, each once, in ascending order.
pub open spec fn is_name_listing(s: Seq<Seq<char>>, p: Set<Seq<char>>) -> bool {
    &&& s.no_duplicates()
    &&& forall|i: int, j: int| 0 <= i < j < s.len() ==> text_le(s[i], s[j])
    &&& forall|x: Seq<char>| s.contains(x) <==> p.contains(x)
}

/// The strings of `v`, which holds none twice, in ascending order.
pub fn list_names(v: Vec<String>) -> (r: Vec<String>)
    requires
        names(v@).no_duplicates(),
    ensures
        is_name_listing(names(r@), names(v@).to_set()),
{
    let ghost before = names(v@);
    let r = names_sorted_by_itertools(v);
    proof {
        broadcast use vstd::seq_lib::group_to_multiset_ensures;

        let up = names(r@);
        before.lemma_multiset_has_no_duplicates();
        up.lemma_multiset_has_no_duplicates_conv();
        assert forall|a: int, b: int| 0 <= a < b < up.len() implies text_le(up[a], up[b]) by {
            assert(name_le()(up[a], up[b]));
        }
        assert forall|x: Seq<char>| up.contains(x) <==> before.to_set().contains(x) by {
            assert(up.contains(x) <==> up.to_multiset().count(x) > 0);
            assert(before.contains(x) <==> before.to_multiset().count(x) > 0);
        }
    }
    r
}

/// `s` lists the members of `p`, each once, in ascending order.
pub open spec fn is_listing(s: Seq<usize>, p: Set<usize>) -> bool {
    &&& forall|i: int, j: int| 0 <= i < j < s.len() ==> s[i] < s[j]
    &&& forall|x: usize| s.contains(x) <==> p.contains(x)
}

/// The members of a finite set of numbers in ascending order.
pub open spec fn listing(p: Set<usize>) -> Seq<usize> {
    choose|s: Seq<usize>| is_listing(s, p)
}

/// A set has at most one listing.
pub proof fn lemma_listing_unique(a: Seq<usize>, b: Seq<usize>, p: Set<usize>)
    requires
        is_listing(a, p),
        is_listing(b, p),
    ensures
        a == b,
    decreases a.len(),
{
    if a.len() == 0 {
        if b.len() > 0 {
            assert(b.contains(b[0]));
            assert(a.contains(b[0]));
        }
        assert(a =~= b);
    } else {
        let x = a.last();
        assert(a.contains(x));
        assert(b.contains(x));
        let k = choose|k: int| 0 <= k < b.len() && b[k] == x;
        assert(k == b.len() - 1) by {
            if k < b.len() - 1 {
                let y = b.last();
                assert(b.contains(y));
                assert(a.contains(y));
                let m = choose|m: int| 0 <= m < a.len() && a[m] == y;
                assert(a[m] <= a[a.len() - 1]);
            }
        }
        let q = p.remove(x);
        assert(is_listing(a.drop_last(), q)) by {
            assert forall|z: usize| a.drop_last().contains(z) <==> q.contains(z) by {
                if a.drop_last().contains(z) {
                    let m = choose|m: int| 0 <= m < a.len() - 1 && a.drop_last()[m] == z;
                    assert(a[m] == z);
                    assert(a.contains(z));
                }
                if q.contains(z) {
                    assert(a.contains(z));
                    let m = choose|m: int| 0 <= m < a.len() && a[m] == z;
                    assert(a.drop_last()[m] == z);
                }
            }
        }
        assert(is_listing(b.drop_last(), q)) by {
            assert forall|z: usize| b.drop_last().contains(z) <==> q.contains(z) by {
                if b.drop_last().contains(z) {
                    let m = choose|m: int| 0 <= m < b.len() - 1 && b.drop_last()[m] == z;
                    assert(b[m] == z);
                    assert(b.contains(z));
                }
                if q.contains(z) {
                    assert(b.contains(z));
                    let m = choose|m: int| 0 <= m < b.len() && b[m] == z;
                    assert(b.drop_last()[m] == z);
                }
            }
        }
        lemma_listing_unique(a.drop_last(), b.drop_last(), q);
        assert(a =~= a.drop_last().push(x));
        assert(b =~= b.drop_last().push(x));
    }
}

/// The numbers of `v`, which holds each member of `p` once, in ascending
/// order.
pub(crate) fn list_ascending(v: Vec<usize>, Ghost(p): Ghost<Set<usize>>) -> (r: Vec<usize>)
    requires
        v@.no_duplicates(),
        forall|x: usize| v@.contains(x) <==> p.contains(x),
    ensures
        is_listing(r@, p),
        r@ == listing(p),
        r.len() == v.len(),
{
    let ghost before = v@;
    let r = sort_numbers(v);
    proof {
        broadcast use vstd::seq_lib::group_to_multiset_ensures;

        before.lemma_multiset_has_no_duplicates();
        r@.lemma_multiset_has_no_duplicates_conv();
        assert forall|i: int, j: int| 0 <= i < j < r.len() implies r[i] < r[j] by {
            assert(number_le()(r[i], r[j]));
        }
        assert forall|x: usize| r@.contains(x) <==> p.contains(x) by {
            assert(r@.contains(x) <==> r@.to_multiset().count(x) > 0);
            assert(before.contains(x) <==> before.to_multiset().count(x) > 0);
        }
        assert(is_listing(r@, p));
        assert(is_listing(listing(p), p));
        lemma_listing_unique(r@, listing(p), p);
        assert(r@.len() == r@.to_multiset().len());
        assert(before.len() == before.to_multiset().len());
    }
    r
}

/// A set of numbers below a bound has a listing.
pub proof fn lemma_range_listing(p: Set<usize>, bound: nat)
    requires
        forall|x: usize| p.contains(x) ==> x < bound,
    ensures
        is_listing(listing(p), p),
    decreases bound,
{
    if bound == 0 {
        let s = Seq::<usize>::empty();
        assert(is_listing(s, p));
    } else {
        let top = (bound - 1) as usize;
        if bound - 1 > usize::MAX {
            lemma_range_listing(p, (bound - 1) as nat);
        } else {
            let q = p.remove(top);
            lemma_range_listing(q, (bound - 1) as nat);
            let s = listing(q);
            if p.contains(top) {
                let t = s.push(top);
                assert forall|i: int, j: int| 0 <= i < j < t.len() implies t[i] < t[j] by {
                    if j == s.len() {
                        assert(s.contains(s[i]));
                    }
                }
                assert forall|y: usize| t.contains(y) <==> p.contains(y) by {
                    if t.contains(y) {
                        let k = choose|k: int| 0 <= k < t.len() && t[k] == y;
                        if k < s.len() {
                            assert(s.contains(y));
                        }
                    }
                    if p.contains(y) {
                        if y == top {
                            assert(t[s.len() as int] == y);
                        } else {
                            assert(s.contains(y));
                            let k = choose|k: int| 0 <= k < s.len() && s[k] == y;
                            assert(t[k] == y);
                        }
                    }
                }
                assert(is_listing(t, p));
            } else {
                assert(q =~= p);
            }
        }
    }
}

} // verus!
