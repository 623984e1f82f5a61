//! Iterated dominance frontiers: the nodes at which a variable needs a phi,
//! given the blocks that define it.
use crate::bits::{count_true, filled_row, lemma_count_bound, lemma_count_set, members};
use vstd::prelude::*;

verus! {

/// One step along the frontiers: the node at position `k` of `c` is a block
/// and the next node is on its dominance frontier.
pub open spec fn hop(frontier: Seq<Seq<usize>>, blocks: nat, c: Seq<usize>, k: int) -> bool {
    c[k] < blocks && c[k] < frontier.len() && frontier[c[k] as int].contains(c[k + 1])
}

/// A chain of steps along the frontiers.
pub open spec fn is_chain(frontier: Seq<Seq<usize>>, blocks: nat, c: Seq<usize>) -> bool {
    &&& c.len() >= 1
    &&& forall|k: int| 0 <= k < c.len() - 1 ==> #[trigger] hop(frontier, blocks, c, k)
}

/// A chain of at least one step from a defining block to `x`.
pub open spec fn leads_to(
    frontier: Seq<Seq<usize>>,
    blocks: nat,
    is_def: Seq<bool>,
    c: Seq<usize>,
    x: usize,
) -> bool {
    &&& is_chain(frontier, blocks, c)
    &&& c.len() >= 2
    &&& c[0] < is_def.len()
    &&& is_def[c[0] as int]
    &&& c.last() == x
}

/// `x` is on the iterated dominance frontier of the defining blocks: on the
/// frontier of a defining block, or of a block that is itself on the
/// iterated frontier.
pub open spec fn in_idf(frontier: Seq<Seq<usize>>, blocks: nat, is_def: Seq<bool>, x: usize) -> bool {
    exists|c: Seq<usize>| leads_to(frontier, blocks, is_def, c, x)
}

/// A chain with one more step.
pub proof fn lemma_chain_push(frontier: Seq<Seq<usize>>, blocks: nat, c: Seq<usize>, s: usize)
    requires
        is_chain(frontier, blocks, c),
        c.last() < blocks,
        c.last() < frontier.len(),
        frontier[c.last() as int].contains(s),
    ensures
        is_chain(frontier, blocks, c.push(s)),
{
    let e = c.push(s);
    assert forall|k: int| 0 <= k < e.len() - 1 implies #[trigger] hop(frontier, blocks, e, k) by {
        if k < c.len() - 1 {
            assert(hop(frontier, blocks, c, k));
        }
    }
}

/// What holds while the frontiers are followed.
spec fn closing(
    frontier: Seq<Seq<usize>>,
    blocks: nat,
    is_def: Seq<bool>,
    has_phi: Seq<bool>,
    queued: Seq<bool>,
    work: Seq<usize>,
    done: int,
) -> bool {
    let n = frontier.len();
    &&& is_def.len() == n
    &&& has_phi.len() == n
    &&& queued.len() == n
    &&& 0 <= done <= work.len()
    &&& work.len() == count_true(queued)
    &&& forall|p: int| 0 <= p < work.len() ==> #[trigger] work[p] < n
    &&& forall|x: int| 0 <= x < n ==> (#[trigger] queued[x] <==> work.contains(x as usize))
    &&& forall|x: int| 0 <= x < n ==> (#[trigger] queued[x] <==> is_def[x] || has_phi[x])
    &&& forall|x: int| 0 <= x < n && #[trigger] has_phi[x] ==> in_idf(frontier, blocks, is_def, x as usize)
    &&& forall|p: int, j: int|
        0 <= p < done && work[p] < blocks && 0 <= j < frontier[work[p] as int].len()
            ==> has_phi[#[trigger] frontier[work[p] as int][j] as int]
}

/// When every queued node has been followed, every node that a chain leads
/// to has its phi.
proof fn lemma_closed(
    frontier: Seq<Seq<usize>>,
    blocks: nat,
    is_def: Seq<bool>,
    has_phi: Seq<bool>,
    queued: Seq<bool>,
    work: Seq<usize>,
    c: Seq<usize>,
    x: usize,
)
    requires
        closing(frontier, blocks, is_def, has_phi, queued, work, work.len() as int),
        forall|d: int, j: int|
            0 <= d < frontier.len() && 0 <= j < frontier[d].len() ==> #[trigger] frontier[d][j]
                < frontier.len(),
        leads_to(frontier, blocks, is_def, c, x),
    ensures
        x < has_phi.len(),
        has_phi[x as int],
    decreases c.len(),
{
    let d = c[c.len() - 2];
    assert(hop(frontier, blocks, c, c.len() - 2));
    let j = choose|j: int| 0 <= j < frontier[d as int].len() && frontier[d as int][j] == x;
    assert(frontier[d as int][j] < frontier.len());
    if c.len() > 2 {
        let prefix = c.drop_last();
        assert(is_chain(frontier, blocks, prefix)) by {
            assert forall|k: int| 0 <= k < prefix.len() - 1 implies #[trigger] hop(
                frontier,
                blocks,
                prefix,
                k,
            ) by {
                assert(hop(frontier, blocks, c, k));
            }
        }
        assert(leads_to(frontier, blocks, is_def, prefix, d));
        lemma_closed(frontier, blocks, is_def, has_phi, queued, work, prefix, d);
    }
    assert(queued[d as int]);
    assert(work.contains(d));
    let p = choose|p: int| 0 <= p < work.len() && work[p] == d;
    assert(has_phi[frontier[work[p] as int][j] as int]);
}

/// The nodes at which a variable defined in the blocks `is_def` needs a
/// phi: the members of the result are the nodes on the iterated dominance
/// frontier of those blocks.
pub fn idf_flags(frontier: &Vec<Vec<usize>>, blocks: usize, is_def: &Vec<bool>) -> (has_phi: Vec<bool>)
    requires
        is_def.len() == frontier.len(),
        forall|d: int, j: int|
            0 <= d < frontier.len() && 0 <= j < frontier[d].len() ==> #[trigger] frontier[d][j]
                < frontier.len(),
    ensures
        has_phi.len() == frontier.len(),
        forall|x: int|
            0 <= x < frontier.len() ==> #[trigger] has_phi[x] == in_idf(
                Seq::new(frontier.len() as nat, |i: int| frontier[i]@),
                blocks as nat,
                is_def@,
                x as usize,
            ),
{
    let n = frontier.len();
    let ghost fr = Seq::new(frontier.len() as nat, |i: int| frontier[i]@);
    let mut has_phi = filled_row(n, false);
    let mut queued: Vec<bool> = Vec::new();
    let mut x: usize = 0;
    while x < n
        invariant
            x <= n,
            n == is_def.len(),
            queued.len() == x,
            forall|y: int| 0 <= y < x ==> queued[y] == is_def[y],
        decreases n - x,
    {
        queued.push(is_def[x]);
        x += 1;
    }
    assert(queued@ =~= is_def@);
    let mut work = members(&queued);
    let mut done: usize = 0;
    proof {
        assert forall|x: int| 0 <= x < n implies (#[trigger] queued[x] <==> work@.contains(
            x as usize,
        )) by {}
        assert forall|p: int| 0 <= p < work.len() implies #[trigger] work[p] < n by {
            assert(work@.contains(work[p]));
        }
        assert forall|x: int| 0 <= x < n implies (#[trigger] queued[x] <==> is_def[x] || has_phi[x]) by {
            assert(!has_phi[x]);
        }
        assert(closing(fr, blocks as nat, is_def@, has_phi@, queued@, work@, 0));
    }
    while done < work.len()
        invariant
            n == frontier.len(),
            fr == Seq::new(frontier.len() as nat, |i: int| frontier[i]@),
            forall|d: int, j: int|
                0 <= d < frontier.len() && 0 <= j < frontier[d].len() ==> #[trigger] frontier[d][j]
                    < frontier.len(),
            closing(fr, blocks as nat, is_def@, has_phi@, queued@, work@, done as int),
        decreases n - done,
    {
        proof {
            lemma_count_bound(queued@);
        }
        let d = work[done];
        if d < blocks {
            let mut j: usize = 0;
            while j < frontier[d].len()
                invariant
                    j <= frontier[d as int].len(),
                    n == frontier.len(),
                    d < blocks,
                    d < n,
                    done < work.len(),
                    d == work[done as int],
                    fr == Seq::new(frontier.len() as nat, |i: int| frontier[i]@),
                    forall|e: int, k: int|
                        0 <= e < frontier.len() && 0 <= k < frontier[e].len()
                            ==> #[trigger] frontier[e][k] < frontier.len(),
                    closing(fr, blocks as nat, is_def@, has_phi@, queued@, work@, done as int),
                    forall|k: int| 0 <= k < j ==> has_phi[#[trigger] frontier[d as int][k] as int],
                decreases frontier[d as int].len() - j,
            {
                let s = frontier[d][j];
                let ghost phi0 = has_phi@;
                let ghost queued0 = queued@;
                let ghost work0 = work@;
                assert(fr[d as int][j as int] == s);
                assert(s < n);
                proof {
                    // a chain leads to `s`
                    assert(fr[d as int].contains(s));
                    assert(queued0[d as int]) by {
                        assert(work0.contains(d));
                    }
                    if is_def[d as int] {
                        let c = seq![d, s];
                        assert(is_chain(fr, blocks as nat, c)) by {
                            assert forall|k: int| 0 <= k < c.len() - 1 implies #[trigger] hop(
                                fr,
                                blocks as nat,
                                c,
                                k,
                            ) by {}
                        }
                        assert(leads_to(fr, blocks as nat, is_def@, c, s));
                    } else {
                        assert(phi0[d as int]);
                        let nb = blocks as nat;
                        let c = choose|c: Seq<usize>| leads_to(fr, nb, is_def@, c, d);
                        lemma_chain_push(fr, blocks as nat, c, s);
                        assert(leads_to(fr, blocks as nat, is_def@, c.push(s), s));
                    }
                    assert(in_idf(fr, blocks as nat, is_def@, s));
                }
                if !has_phi[s] {
                    has_phi[s] = true;
                }
                if !queued[s] {
                    proof {
                        lemma_count_set(queued0, s as int);
                    }
                    queued[s] = true;
                    work.push(s);
                }
                proof {
                    assert forall|y: int| 0 <= y < n implies (#[trigger] queued[y] <==> work@.contains(
                        y as usize,
                    )) by {
                        if queued0[y] {
                            assert(work0.contains(y as usize));
                            let p = choose|p: int| 0 <= p < work0.len() && work0[p] == y as usize;
                            assert(work[p] == y as usize);
                        }
                        if work@.contains(y as usize) {
                            let p = choose|p: int| 0 <= p < work.len() && work[p] == y as usize;
                            if p < work0.len() {
                                assert(work0.contains(y as usize));
                            }
                        }
                        if y == s && !queued0[s as int] {
                            assert(work[work.len() - 1] == s);
                        }
                    }
                    assert forall|p: int, k: int|
                        0 <= p < done && work[p] < blocks && 0 <= k < fr[work[p] as int].len() implies has_phi[#[trigger] fr[work[p] as int][k] as int] by {
                        assert(work0[p] == work[p]);
                        assert(phi0[fr[work0[p] as int][k] as int]);
                    }
                    assert forall|k: int| 0 <= k < j + 1 implies has_phi[#[trigger] frontier[d as int][k] as int] by {
                        if k < j {
                            assert(phi0[frontier[d as int][k] as int]);
                        }
                    }
                }
                j += 1;
            }
            proof {
                assert forall|p: int, k: int|
                    0 <= p < done + 1 && work[p] < blocks && 0 <= k < fr[work[p] as int].len() implies has_phi[#[trigger] fr[work[p] as int][k] as int] by {
                    if p == done {
                        assert(fr[d as int][k] == frontier[d as int][k]);
                    }
                }
            }
        }
        done += 1;
    }
    proof {
        assert forall|x: int| 0 <= x < n implies #[trigger] has_phi[x] == in_idf(
            fr,
            blocks as nat,
            is_def@,
            x as usize,
        ) by {
            let xu = x as usize;
            let nb = blocks as nat;
            if in_idf(fr, nb, is_def@, xu) {
                let c = choose|c: Seq<usize>| leads_to(fr, nb, is_def@, c, xu);
                assert forall|d: int, j: int|
                    0 <= d < fr.len() && 0 <= j < fr[d].len() implies #[trigger] fr[d][j] < fr.len() by {
                    assert(frontier[d][j] < frontier.len());
                }
                lemma_closed(fr, blocks as nat, is_def@, has_phi@, queued@, work@, c, x as usize);
            }
        }
    }
    has_phi
}

} // verus!
