//! Generated block labels: the decimal form of a number, the labels
//! `anon_block_<k>`, and the choice of the least one not yet in use.
use crate::ir::{has_name, names};
use vstd::prelude::*;

verus! {

/// The character of one decimal digit.
pub open spec fn digit_char(d: nat) -> char {
    if d == 0 {
        '0'
    } else if d == 1 {
        '1'
    } else if d == 2 {
        '2'
    } else if d == 3 {
        '3'
    } else if d == 4 {
        '4'
    } else if d == 5 {
        '5'
    } else if d == 6 {
        '6'
    } else if d == 7 {
        '7'
    } else if d == 8 {
        '8'
    } else {
        '9'
    }
}

/// The decimal digits of `n`, most significant first, without leading zeros.
pub open spec fn decimal_digits(n: nat) -> Seq<char>
    decreases n,
{
    if n < 10 {
        seq![digit_char(n)]
    } else {
        decimal_digits(n / 10).push(digit_char(n % 10))
    }
}

/// `usize::to_string`: the number written in decimal, as `Display` for the
/// integer types gives it. Trusted: the result is the digit sequence
/// `decimal_digits`.
#[verifier::external_body]
pub(crate) fn decimal(n: usize) -> (r: String)
    ensures
        r@ == decimal_digits(n as nat),
{
    n.to_string()
}

/// No decimal form is empty and none holds a dot.
pub proof fn lemma_decimal_shape(n: nat)
    ensures
        decimal_digits(n).len() >= 1,
        !decimal_digits(n).contains('.'),
    decreases n,
{
    if n >= 10 {
        lemma_decimal_shape(n / 10);
        let p = decimal_digits(n / 10);
        let s = decimal_digits(n);
        assert forall|i: int| 0 <= i < s.len() implies s[i] != '.' by {
            if i < p.len() {
                assert(s[i] == p[i]);
                assert(p.contains(p[i]));
            }
        }
    } else {
        let s = decimal_digits(n);
        assert forall|i: int| 0 <= i < s.len() implies s[i] != '.' by {
            assert(s[i] == digit_char(n));
        }
    }
}

/// Different numbers have different decimal forms.
pub proof fn lemma_decimal_injective(a: nat, b: nat)
    requires
        decimal_digits(a) == decimal_digits(b),
    ensures
        a == b,
    decreases a,
{
    lemma_decimal_shape(a / 10);
    lemma_decimal_shape(b / 10);
    if a < 10 && b < 10 {
        assert(decimal_digits(a)[0] == digit_char(a));
        assert(decimal_digits(b)[0] == digit_char(b));
        lemma_digit_injective(a, b);
    } else if a >= 10 && b >= 10 {
        let pa = decimal_digits(a / 10);
        let pb = decimal_digits(b / 10);
        let sa = pa.push(digit_char(a % 10));
        let sb = pb.push(digit_char(b % 10));
        assert(sa == sb);
        assert(sa.drop_last() =~= pa);
        assert(sb.drop_last() =~= pb);
        assert(sa.last() == digit_char(a % 10));
        assert(sb.last() == digit_char(b % 10));
        lemma_decimal_injective(a / 10, b / 10);
        lemma_digit_injective(a % 10, b % 10);
    } else {
        assert(decimal_digits(a).len() == decimal_digits(b).len());
    }
}

/// Different digits have different characters.
pub proof fn lemma_digit_injective(a: nat, b: nat)
    requires
        a < 10,
        b < 10,
        digit_char(a) == digit_char(b),
    ensures
        a == b,
{
}

/// The generated label with number `k`.
pub open spec fn anon_label(k: nat) -> Seq<char> {
    "anon_block_"@ + decimal_digits(k)
}

/// Different numbers give different generated labels, and none is empty.
pub proof fn lemma_anon_label_injective(a: nat, b: nat)
    ensures
        anon_label(a) == anon_label(b) ==> a == b,
        anon_label(a).len() > 0,
{
    lemma_decimal_shape(a);
    if anon_label(a) == anon_label(b) {
        let p = "anon_block_"@;
        assert(anon_label(a).subrange(p.len() as int, anon_label(a).len() as int) =~= decimal_digits(
            a,
        ));
        assert(anon_label(b).subrange(p.len() as int, anon_label(b).len() as int) =~= decimal_digits(
            b,
        ));
        lemma_decimal_injective(a, b);
    }
}

/// `k` is the least number whose generated label is not in `used`.
pub open spec fn is_least_free(used: Set<Seq<char>>, k: nat) -> bool {
    &&& !used.contains(anon_label(k))
    &&& forall|j: nat| j < k ==> used.contains(#[trigger] anon_label(j))
}

/// The least number whose generated label is not in `used`.
pub open spec fn least_free(used: Set<Seq<char>>) -> nat {
    choose|k: nat| is_least_free(used, k)
}

/// There is at most one least free number.
pub proof fn lemma_least_free_unique(used: Set<Seq<char>>, k: nat)
    requires
        is_least_free(used, k),
    ensures
        least_free(used) == k,
{
    let c = least_free(used);
    assert(is_least_free(used, c));
    if c < k {
        assert(used.contains(anon_label(c)));
    }
    if k < c {
        assert(used.contains(anon_label(k)));
    }
}

/// A finite set that holds the labels of all numbers below `c` has at least
/// `c` elements.
pub proof fn lemma_all_used_bound(used: Set<Seq<char>>, c: nat)
    requires
        used.finite(),
        forall|j: nat| j < c ==> used.contains(#[trigger] anon_label(j)),
    ensures
        c <= used.len(),
    decreases c,
{
    if c > 0 {
        let last = anon_label((c - 1) as nat);
        let rest = used.remove(last);
        assert forall|j: nat| j < (c - 1) as nat implies rest.contains(#[trigger] anon_label(j)) by {
            lemma_anon_label_injective(j, (c - 1) as nat);
        }
        lemma_all_used_bound(rest, (c - 1) as nat);
    }
}

/// In a finite set of labels some number is free, so a least one exists.
pub proof fn lemma_least_free_exists(used: Set<Seq<char>>)
    requires
        used.finite(),
    ensures
        is_least_free(used, least_free(used)),
        least_free(used) <= used.len(),
{
    lemma_free_from(used, 0);
    let k = choose|k: nat| is_least_free(used, k);
    lemma_all_used_bound(used, k);
}

proof fn lemma_free_from(used: Set<Seq<char>>, c: nat)
    requires
        used.finite(),
        c <= used.len(),
        forall|j: nat| j < c ==> used.contains(#[trigger] anon_label(j)),
    ensures
        exists|k: nat| is_least_free(used, k),
    decreases used.len() - c,
{
    if used.contains(anon_label(c)) {
        assert forall|j: nat| j < c + 1 implies used.contains(#[trigger] anon_label(j)) by {
            if j == c {
            }
        }
        lemma_all_used_bound(used, c + 1);
        lemma_free_from(used, c + 1);
    } else {
        assert(is_least_free(used, c));
    }
}

/// A finite set that holds the labels of the `m` numbers from `c` on has at
/// least `m` elements.
pub proof fn lemma_run_used_bound(used: Set<Seq<char>>, c: nat, m: nat)
    requires
        used.finite(),
        forall|j: nat| c <= j < c + m ==> used.contains(#[trigger] anon_label(j)),
    ensures
        m <= used.len(),
    decreases m,
{
    if m > 0 {
        let top = (c + m - 1) as nat;
        let rest = used.remove(anon_label(top));
        assert(used.contains(anon_label(top)));
        assert forall|j: nat| c <= j < c + (m - 1) as nat implies rest.contains(
            #[trigger] anon_label(j),
        ) by {
            lemma_anon_label_injective(j, top);
        }
        lemma_run_used_bound(rest, c, (m - 1) as nat);
    }
}

/// Among the numbers from `c` on, as many as the labels in use and one
/// more, one has a label that is not in use.
pub proof fn lemma_free_at_or_above(used: Seq<Seq<char>>, c: nat)
    ensures
        exists|k: nat| c <= k <= c + used.len() && !used.contains(#[trigger] anon_label(k)),
{
    let set = used.to_set();
    vstd::seq_lib::seq_to_set_is_finite(used);
    used.lemma_cardinality_of_set();
    if forall|j: nat| c <= j < c + used.len() + 1 ==> used.contains(#[trigger] anon_label(j)) {
        assert forall|j: nat| c <= j < c + (used.len() + 1) as nat implies set.contains(
            #[trigger] anon_label(j),
        ) by {
            assert(used.contains(anon_label(j)));
        }
        lemma_run_used_bound(set, c, (used.len() + 1) as nat);
    }
}

/// The label `anon_block_<k>` for the least `k`, from the counter on, whose
/// label is not in `used_labels`; the counter is left at that `k`. With a
/// counter below which every label is in use, and so with a counter of
/// zero, that is the least free label of all. A run of calls, each followed
/// by adding the result to `used_labels`, does not look twice at a label.
/// Some label from the counter on has to be free: the search does not go
/// beyond the largest number.
pub fn create_unique_label(counter: &mut usize, used_labels: &Vec<String>) -> (label: String)
    requires
        exists|k: nat|
            *old(counter) <= k <= usize::MAX && !names(used_labels@).contains(
                #[trigger] anon_label(k),
            ),
    ensures
        *final(counter) >= *old(counter),
        label@ == anon_label(*final(counter) as nat),
        !names(used_labels@).contains(label@),
        forall|j: nat|
            *old(counter) <= j < *final(counter) ==> names(used_labels@).contains(
                #[trigger] anon_label(j),
            ),
        (forall|j: nat| j < *old(counter) ==> names(used_labels@).contains(#[trigger] anon_label(j)))
            ==> *final(counter) == least_free(names(used_labels@).to_set()),
{
    let ghost used = names(used_labels@).to_set();
    let ghost free = choose|k: nat|
        *counter <= k <= usize::MAX && !names(used_labels@).contains(#[trigger] anon_label(k));
    let mut label = String::from_str("anon_block_").concat(decimal(*counter).as_str());
    while has_name(used_labels, &label)
        invariant
            *counter <= free <= usize::MAX,
            !names(used_labels@).contains(anon_label(free)),
            *counter >= *old(counter),
            label@ == anon_label(*counter as nat),
            forall|j: nat|
                *old(counter) <= j < *counter ==> names(used_labels@).contains(
                    #[trigger] anon_label(j),
                ),
        decreases free - *counter,
    {
        *counter += 1;
        label = String::from_str("anon_block_").concat(decimal(*counter).as_str());
    }
    proof {
        if forall|j: nat| j < *old(counter) ==> names(used_labels@).contains(#[trigger] anon_label(j)) {
            assert forall|j: nat| j < *counter implies used.contains(#[trigger] anon_label(j)) by {
                assert(names(used_labels@).contains(anon_label(j)));
            }
            assert(is_least_free(used, *counter as nat));
            lemma_least_free_unique(used, *counter as nat);
        }
    }
    label
}

} // verus!
