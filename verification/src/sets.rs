//! Finite sets held as lists: membership, union, difference and equality.
use vstd::prelude::*;

verus! {

/// What can be a member of a set held as a list: it can be compared and
/// copied.
pub trait Item: View + Sized {
    fn same_item(&self, other: &Self) -> (r: bool)
        ensures
            r == (self@ == other@),
    ;

    fn copy_item(&self) -> (r: Self)
        ensures
            r@ == self@,
    ;
}

impl Item for String {
    fn same_item(&self, other: &Self) -> (r: bool) {
        *self == *other
    }

    fn copy_item(&self) -> (r: Self) {
        self.clone()
    }
}

/// The views of a list of items.
pub open spec fn items<T: View>(v: Seq<T>) -> Seq<T::V> {
    Seq::new(v.len(), |i: int| v[i]@)
}

/// The set that a list holds.
pub open spec fn set_of<T: View>(v: Seq<T>) -> Set<T::V> {
    items(v).to_set()
}

/// Whether the list holds `x`.
pub fn holds<T: Item>(v: &Vec<T>, x: &T) -> (r: bool)
    ensures
        r == set_of(v@).contains(x@),
{
    let mut i: usize = 0;
    while i < v.len()
        invariant
            i <= v.len(),
            forall|k: int| 0 <= k < i ==> (#[trigger] v[k])@ != x@,
        decreases v.len() - i,
    {
        if v[i].same_item(x) {
            assert(items(v@)[i as int] == x@);
            return true;
        }
        i += 1;
    }
    assert(!items(v@).contains(x@)) by {
        if items(v@).contains(x@) {
            let k = choose|k: int| 0 <= k < items(v@).len() && items(v@)[k] == x@;
            assert(v[k]@ == x@);
        }
    }
    false
}

/// A list grown by one item holds one more member.
pub proof fn lemma_set_push<T: View>(v: Seq<T>, x: T)
    ensures
        set_of(v.push(x)) == set_of(v).insert(x@),
{
    assert(items(v.push(x)) =~= items(v).push(x@));
    items(v).lemma_push_to_set_commute(x@);
}

/// The members of `a` and after them the members of `b` that `a` lacks.
pub fn union<T: Item>(a: &Vec<T>, b: &Vec<T>) -> (r: Vec<T>)
    ensures
        set_of(r@) == set_of(a@).union(set_of(b@)),
{
    let mut r: Vec<T> = Vec::new();
    let mut i: usize = 0;
    assert(set_of(r@) =~= Set::<T::V>::empty());
    assert(items(a@).take(0) =~= Seq::empty());
    while i < a.len()
        invariant
            i <= a.len(),
            set_of(r@) == items(a@).take(i as int).to_set(),
        decreases a.len() - i,
    {
        let ghost r0 = r@;
        proof {
            assert(items(a@).take(i + 1) =~= items(a@).take(i as int).push(a[i as int]@));
            items(a@).take(i as int).lemma_push_to_set_commute(a[i as int]@);
            items(r0).lemma_push_to_set_commute(a[i as int]@);
        }
        r.push(a[i].copy_item());
        proof {
            assert(items(r@) =~= items(r0).push(a[i as int]@));
        }
        i += 1;
    }
    assert(items(a@).take(i as int) =~= items(a@));
    let mut j: usize = 0;
    assert(items(b@).take(0) =~= Seq::empty());
    assert(set_of(a@).union(Seq::<T::V>::empty().to_set()) =~= set_of(a@));
    while j < b.len()
        invariant
            j <= b.len(),
            set_of(r@) == set_of(a@).union(items(b@).take(j as int).to_set()),
        decreases b.len() - j,
    {
        let ghost before = set_of(r@);
        proof {
            assert(items(b@).take(j + 1) =~= items(b@).take(j as int).push(b[j as int]@));
            items(b@).take(j as int).lemma_push_to_set_commute(b[j as int]@);
        }
        if !holds(&r, &b[j]) {
            proof {
                lemma_set_push(r@, b[j as int]);
            }
            let ghost r0 = r@;
            r.push(b[j].copy_item());
            proof {
                assert(items(r@) =~= items(r0).push(b[j as int]@));
                assert(items(r0).push(b[j as int]@).to_set() == items(r0).to_set().insert(
                    b[j as int]@,
                )) by {
                    items(r0).lemma_push_to_set_commute(b[j as int]@);
                }
            }
        }
        proof {
            assert(set_of(r@) =~= before.insert(b[j as int]@));
            assert(before.insert(b[j as int]@) =~= set_of(a@).union(
                items(b@).take(j + 1).to_set(),
            ));
        }
        j += 1;
    }
    assert(items(b@).take(j as int) =~= items(b@));
    r
}

/// Whether two lists hold the same set.
pub fn same_set<T: Item>(a: &Vec<T>, b: &Vec<T>) -> (r: bool)
    ensures
        r == (set_of(a@) == set_of(b@)),
{
    let mut i: usize = 0;
    while i < a.len()
        invariant
            i <= a.len(),
            forall|k: int| 0 <= k < i ==> set_of(b@).contains((#[trigger] a[k])@),
        decreases a.len() - i,
    {
        if !holds(b, &a[i]) {
            assert(items(a@)[i as int] == a[i as int]@);
            assert(set_of(a@).contains(a[i as int]@));
            return false;
        }
        i += 1;
    }
    let mut j: usize = 0;
    while j < b.len()
        invariant
            j <= b.len(),
            forall|k: int| 0 <= k < a.len() ==> set_of(b@).contains((#[trigger] a[k])@),
            forall|k: int| 0 <= k < j ==> set_of(a@).contains((#[trigger] b[k])@),
        decreases b.len() - j,
    {
        if !holds(a, &b[j]) {
            assert(items(b@)[j as int] == b[j as int]@);
            assert(set_of(b@).contains(b[j as int]@));
            return false;
        }
        j += 1;
    }
    proof {
        assert(set_of(a@) =~= set_of(b@)) by {
            assert forall|x: T::V| set_of(a@).contains(x) <==> set_of(b@).contains(x) by {
                if items(a@).contains(x) {
                    let k = choose|k: int| 0 <= k < items(a@).len() && items(a@)[k] == x;
                    assert(a[k]@ == x);
                }
                if items(b@).contains(x) {
                    let k = choose|k: int| 0 <= k < items(b@).len() && items(b@)[k] == x;
                    assert(b[k]@ == x);
                }
            }
        }
    }
    true
}

/// What a list holds, member by member.
pub proof fn lemma_set_of<T: View>(v: Seq<T>, x: T::V)
    ensures
        set_of(v).contains(x) <==> exists|k: int| 0 <= k < v.len() && (#[trigger] v[k])@ == x,
{
    if set_of(v).contains(x) {
        let k = choose|k: int| 0 <= k < items(v).len() && items(v)[k] == x;
        assert(v[k]@ == x);
    }
    if exists|k: int| 0 <= k < v.len() && (#[trigger] v[k])@ == x {
        let k = choose|k: int| 0 <= k < v.len() && (#[trigger] v[k])@ == x;
        assert(items(v)[k] == x);
    }
}

/// The members of `a` that `b` lacks.
pub fn minus<T: Item>(a: &Vec<T>, b: &Vec<T>) -> (r: Vec<T>)
    ensures
        set_of(r@) == set_of(a@).difference(set_of(b@)),
{
    let mut r: Vec<T> = Vec::new();
    let mut i: usize = 0;
    assert(items(a@).take(0) =~= Seq::empty());
    assert(set_of(r@) =~= Seq::<T::V>::empty().to_set().difference(set_of(b@)));
    while i < a.len()
        invariant
            i <= a.len(),
            set_of(r@) == items(a@).take(i as int).to_set().difference(set_of(b@)),
        decreases a.len() - i,
    {
        let ghost r0 = r@;
        let ghost done = items(a@).take(i as int);
        proof {
            assert(items(a@).take(i + 1) =~= done.push(a[i as int]@));
            done.lemma_push_to_set_commute(a[i as int]@);
        }
        if !holds(b, &a[i]) {
            proof {
                items(r0).lemma_push_to_set_commute(a[i as int]@);
            }
            r.push(a[i].copy_item());
            proof {
                assert(items(r@) =~= items(r0).push(a[i as int]@));
                assert(set_of(r@) =~= done.push(a[i as int]@).to_set().difference(set_of(b@)));
            }
        } else {
            proof {
                assert(set_of(r@) =~= done.push(a[i as int]@).to_set().difference(set_of(b@)));
            }
        }
        i += 1;
    }
    assert(items(a@).take(i as int) =~= items(a@));
    r
}

} // verus!
