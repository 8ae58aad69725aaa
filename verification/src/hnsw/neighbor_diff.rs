//! The edits that turn one neighbor list into another: identifiers to drop
//! and to add, paired into swaps where possible.

use vstd::prelude::*;

use crate::hnsw::node_id::NodeId;
use crate::hnsw::tape_mutations::TapeMutation;

verus! {

broadcast use vstd::seq_lib::group_to_multiset_ensures;

/// The rank of an identifier in byte order: its bytes read big-endian, so
/// that comparing ranks compares the bytes lexicographically.
pub open spec fn rank(n: NodeId) -> int {
    n.0@[0] * 0x1_0000_0000 + n.0@[1] * 0x100_0000 + n.0@[2] * 0x1_0000 + n.0@[3] * 0x100 + n.0@[4]
}

/// Identifiers in non-decreasing byte order.
pub open spec fn sorted_ids(s: Seq<NodeId>) -> bool {
    forall|i: int, j: int| 0 <= i < j < s.len() ==> rank(#[trigger] s[i]) <= rank(#[trigger] s[j])
}

/// Identifiers of the same rank are the same identifier.
pub proof fn lemma_rank_injective(a: NodeId, b: NodeId)
    requires
        rank(a) == rank(b),
    ensures
        a == b,
{
    let x = a.0@;
    let y = b.0@;
    assert(x[0] == y[0] && x[1] == y[1] && x[2] == y[2] && x[3] == y[3] && x[4] == y[4]) by (nonlinear_arith)
        requires
            x[0] * 0x1_0000_0000 + x[1] * 0x100_0000 + x[2] * 0x1_0000 + x[3] * 0x100 + x[4]
                == y[0] * 0x1_0000_0000 + y[1] * 0x100_0000 + y[2] * 0x1_0000 + y[3] * 0x100 + y[4],
            0 <= x[0] < 256, 0 <= x[1] < 256, 0 <= x[2] < 256, 0 <= x[3] < 256, 0 <= x[4] < 256,
            0 <= y[0] < 256, 0 <= y[1] < 256, 0 <= y[2] < 256, 0 <= y[3] < 256, 0 <= y[4] < 256,
    ;
    assert(x =~= y);
    crate::hnsw::node_id::lemma_eq_from_bytes(a, b);
}

/// Whether `a` comes before `b` in byte order.
pub fn id_less(a: &NodeId, b: &NodeId) -> (r: bool)
    ensures
        r == (rank(*a) < rank(*b)),
{
    let x = a.0;
    let y = b.0;
    assert(x@[0] == x[0] && x@[1] == x[1] && x@[2] == x[2] && x@[3] == x[3] && x@[4] == x[4]);
    assert(y@[0] == y[0] && y@[1] == y[1] && y@[2] == y[2] && y@[3] == y[3] && y@[4] == y[4]);
    if x[0] != y[0] {
        return x[0] < y[0];
    }
    if x[1] != y[1] {
        return x[1] < y[1];
    }
    if x[2] != y[2] {
        return x[2] < y[2];
    }
    if x[3] != y[3] {
        return x[3] < y[3];
    }
    x[4] < y[4]
}

/// The identifiers of `v`, in byte order.
pub fn sorted_copy(v: &[NodeId]) -> (r: Vec<NodeId>)
    ensures
        sorted_ids(r@),
        r@.to_multiset() == v@.to_multiset(),
{
    let mut out: Vec<NodeId> = Vec::new();
    let mut k: usize = 0;
    while k < v.len()
        invariant
            k <= v@.len(),
            sorted_ids(out@),
            out@.to_multiset() == v@.take(k as int).to_multiset(),
        decreases v@.len() - k,
    {
        let x = v[k];
        let mut p: usize = 0;
        while p < out.len() && !id_less(&x, &out[p])
            invariant
                p <= out@.len(),
                forall|q: int| 0 <= q < p ==> rank(out@[q]) <= rank(x),
            decreases out@.len() - p,
        {
            p = p + 1;
        }
        let ghost o = out@;
        out.insert(p, x);
        proof {
            let n = out@;
            assert(n =~= o.insert(p as int, x));
            assert forall|i: int, j: int| 0 <= i < j < n.len() implies rank(#[trigger] n[i]) <= rank(
                #[trigger] n[j],
            ) by {
                if j < p {
                    assert(n[i] == o[i] && n[j] == o[j]);
                } else if j == p {
                    assert(n[i] == o[i]);
                } else if i == p {
                    assert(n[j] == o[j - 1]);
                    assert(rank(x) < rank(o[p as int]));
                    if j - 1 > p {
                        assert(rank(o[p as int]) <= rank(o[j - 1]));
                    }
                } else if i < p {
                    assert(n[i] == o[i] && n[j] == o[j - 1]);
                } else {
                    assert(n[i] == o[i - 1] && n[j] == o[j - 1]);
                }
            }
            assert(v@.take(k + 1) =~= v@.take(k as int).push(x));
        }
        k = k + 1;
    }
    assert(v@.take(k as int) =~= v@);
    out
}

/// The edits for the identifiers to drop and to add: swaps pairing them in
/// order, then drops of the drops left over, then adds of the adds left
/// over.
pub open spec fn diff_mutations(node: NodeId, level: u8, rem: Seq<NodeId>, add: Seq<NodeId>) -> Seq<
    TapeMutation,
> {
    let s = if rem.len() < add.len() {
        rem.len()
    } else {
        add.len()
    };
    Seq::new(s, |k: int| TapeMutation::Swap { node, level, old: rem[k], new: add[k] }) + Seq::new(
        (rem.len() - s) as nat,
        |k: int| TapeMutation::Drop { node, level, neighbor: rem[s + k] },
    ) + Seq::new((add.len() - s) as nat, |k: int| TapeMutation::Add { node, level, neighbor: add[s + k] })
}

/// `rem` holds what `a` has beyond `b`, and `add` what `b` has beyond `a`,
/// counting repeats; both in byte order.
pub open spec fn is_difference(a: Seq<NodeId>, b: Seq<NodeId>, rem: Seq<NodeId>, add: Seq<NodeId>) -> bool {
    &&& sorted_ids(rem)
    &&& sorted_ids(add)
    &&& forall|x: NodeId|
        #[trigger] rem.to_multiset().count(x) == a.to_multiset().count(x) - min_count(a, b, x)
    &&& forall|x: NodeId|
        #[trigger] add.to_multiset().count(x) == b.to_multiset().count(x) - min_count(a, b, x)
}

/// How often `x` occurs in both `a` and `b`.
pub open spec fn min_count(a: Seq<NodeId>, b: Seq<NodeId>, x: NodeId) -> nat {
    let ca = a.to_multiset().count(x);
    let cb = b.to_multiset().count(x);
    if ca < cb {
        ca
    } else {
        cb
    }
}

/// Merges two sorted lists into what only the first has and what only the
/// second has.
fn sorted_difference(a: &Vec<NodeId>, b: &Vec<NodeId>) -> (r: (Vec<NodeId>, Vec<NodeId>))
    requires
        sorted_ids(a@),
        sorted_ids(b@),
    ensures
        is_difference(a@, b@, r.0@, r.1@),
{
    let mut rem: Vec<NodeId> = Vec::new();
    let mut add: Vec<NodeId> = Vec::new();
    let ghost mut common: Seq<NodeId> = seq![];
    let mut i: usize = 0;
    let mut j: usize = 0;
    while i < a.len() && j < b.len()
        invariant
            i <= a@.len(),
            j <= b@.len(),
            sorted_ids(a@),
            sorted_ids(b@),
            sorted_ids(rem@),
            sorted_ids(add@),
            rem@.to_multiset().add(common.to_multiset()) == a@.take(i as int).to_multiset(),
            add@.to_multiset().add(common.to_multiset()) == b@.take(j as int).to_multiset(),
            forall|p: int, k: int|
                0 <= p < rem@.len() && j <= k < b@.len() ==> rank(#[trigger] rem@[p]) < rank(
                    #[trigger] b@[k],
                ),
            forall|p: int, k: int|
                0 <= p < add@.len() && i <= k < a@.len() ==> rank(#[trigger] add@[p]) < rank(
                    #[trigger] a@[k],
                ),
            forall|p: int, k: int|
                0 <= p < rem@.len() && i <= k < a@.len() ==> rank(#[trigger] rem@[p]) <= rank(
                    #[trigger] a@[k],
                ),
            forall|p: int, k: int|
                0 <= p < add@.len() && j <= k < b@.len() ==> rank(#[trigger] add@[p]) <= rank(
                    #[trigger] b@[k],
                ),
            forall|p: int, q: int|
                0 <= p < rem@.len() && 0 <= q < add@.len() ==> #[trigger] rem@[p] != #[trigger] add@[q],
        decreases a@.len() + b@.len() - i - j,
    {
        let x = a[i];
        let y = b[j];
        assert(a@.take(i + 1) =~= a@.take(i as int).push(x));
        assert(b@.take(j + 1) =~= b@.take(j as int).push(y));
        if x.same_as(&y) {
            proof {
                common = common.push(x);
            }
            i = i + 1;
            j = j + 1;
        } else if id_less(&x, &y) {
            let ghost r0 = rem@;
            rem.push(x);
            proof {
                assert forall|p: int, q: int| 0 <= p < rem@.len() && 0 <= q < add@.len() implies #[trigger] rem@[p]
                    != #[trigger] add@[q] by {
                    if p == r0.len() {
                        assert(rank(add@[q]) < rank(a@[i as int]));
                    } else {
                        assert(rem@[p] == r0[p]);
                    }
                }
                assert forall|p: int, k: int| 0 <= p < rem@.len() && j <= k < b@.len() implies rank(
                    #[trigger] rem@[p],
                ) < rank(#[trigger] b@[k]) by {
                    if p == r0.len() {
                        assert(rank(b@[j as int]) <= rank(b@[k]));
                    } else {
                        assert(rem@[p] == r0[p]);
                    }
                }
                assert forall|p: int, k: int| 0 <= p < rem@.len() && i + 1 <= k < a@.len() implies rank(
                    #[trigger] rem@[p],
                ) <= rank(#[trigger] a@[k]) by {
                    if p == r0.len() {
                        assert(rank(a@[i as int]) <= rank(a@[k]));
                    } else {
                        assert(rem@[p] == r0[p]);
                    }
                }
                assert forall|p: int, q: int| 0 <= p < q < rem@.len() implies rank(#[trigger] rem@[p])
                    <= rank(#[trigger] rem@[q]) by {
                    if q == r0.len() {
                        assert(rem@[p] == r0[p]);
                    } else {
                        assert(rem@[p] == r0[p] && rem@[q] == r0[q]);
                    }
                }
                assert(rem@.to_multiset() == r0.to_multiset().insert(x));
            }
            i = i + 1;
        } else {
            proof {
                if rank(x) == rank(y) {
                    lemma_rank_injective(x, y);
                }
            }
            let ghost d0 = add@;
            add.push(y);
            proof {
                assert forall|p: int, q: int| 0 <= p < rem@.len() && 0 <= q < add@.len() implies #[trigger] rem@[p]
                    != #[trigger] add@[q] by {
                    if q == d0.len() {
                        assert(rank(rem@[p]) < rank(b@[j as int]));
                    } else {
                        assert(add@[q] == d0[q]);
                    }
                }
                assert forall|p: int, k: int| 0 <= p < add@.len() && i <= k < a@.len() implies rank(
                    #[trigger] add@[p],
                ) < rank(#[trigger] a@[k]) by {
                    if p == d0.len() {
                        assert(rank(a@[i as int]) <= rank(a@[k]));
                    } else {
                        assert(add@[p] == d0[p]);
                    }
                }
                assert forall|p: int, k: int| 0 <= p < add@.len() && j + 1 <= k < b@.len() implies rank(
                    #[trigger] add@[p],
                ) <= rank(#[trigger] b@[k]) by {
                    if p == d0.len() {
                        assert(rank(b@[j as int]) <= rank(b@[k]));
                    } else {
                        assert(add@[p] == d0[p]);
                    }
                }
                assert forall|p: int, q: int| 0 <= p < q < add@.len() implies rank(#[trigger] add@[p])
                    <= rank(#[trigger] add@[q]) by {
                    if q == d0.len() {
                        assert(add@[p] == d0[p]);
                    } else {
                        assert(add@[p] == d0[p] && add@[q] == d0[q]);
                    }
                }
                assert(add@.to_multiset() == d0.to_multiset().insert(y));
            }
            j = j + 1;
        }
    }
    // what is left of either list has no counterpart in the other
    while i < a.len()
        invariant
            j == b@.len() || i == a@.len(),
            i <= a@.len(),
            j <= b@.len(),
            sorted_ids(a@),
            sorted_ids(rem@),
            sorted_ids(add@),
            rem@.to_multiset().add(common.to_multiset()) == a@.take(i as int).to_multiset(),
            add@.to_multiset().add(common.to_multiset()) == b@.take(j as int).to_multiset(),
            forall|p: int, k: int|
                0 <= p < rem@.len() && j <= k < b@.len() ==> rank(#[trigger] rem@[p]) < rank(
                    #[trigger] b@[k],
                ),
            forall|p: int, k: int|
                0 <= p < add@.len() && i <= k < a@.len() ==> rank(#[trigger] add@[p]) < rank(
                    #[trigger] a@[k],
                ),
            forall|p: int, k: int|
                0 <= p < rem@.len() && i <= k < a@.len() ==> rank(#[trigger] rem@[p]) <= rank(
                    #[trigger] a@[k],
                ),
            forall|p: int, q: int|
                0 <= p < rem@.len() && 0 <= q < add@.len() ==> #[trigger] rem@[p] != #[trigger] add@[q],
        decreases a@.len() - i,
    {
        let x = a[i];
        assert(a@.take(i + 1) =~= a@.take(i as int).push(x));
        let ghost r0 = rem@;
        rem.push(x);
        proof {
            assert forall|p: int, q: int| 0 <= p < rem@.len() && 0 <= q < add@.len() implies #[trigger] rem@[p]
                != #[trigger] add@[q] by {
                if p == r0.len() {
                    assert(rank(add@[q]) < rank(a@[i as int]));
                } else {
                    assert(rem@[p] == r0[p]);
                }
            }
            assert forall|p: int, k: int| 0 <= p < rem@.len() && i + 1 <= k < a@.len() implies rank(
                #[trigger] rem@[p],
            ) <= rank(#[trigger] a@[k]) by {
                if p == r0.len() {
                    assert(rank(a@[i as int]) <= rank(a@[k]));
                } else {
                    assert(rem@[p] == r0[p]);
                }
            }
            assert forall|p: int, q: int| 0 <= p < q < rem@.len() implies rank(#[trigger] rem@[p])
                <= rank(#[trigger] rem@[q]) by {
                if q == r0.len() {
                    assert(rem@[p] == r0[p]);
                } else {
                    assert(rem@[p] == r0[p] && rem@[q] == r0[q]);
                }
            }
            assert(rem@.to_multiset() == r0.to_multiset().insert(x));
        }
        i = i + 1;
    }
    while j < b.len()
        invariant
            i == a@.len(),
            j <= b@.len(),
            sorted_ids(b@),
            sorted_ids(rem@),
            sorted_ids(add@),
            rem@.to_multiset().add(common.to_multiset()) == a@.take(i as int).to_multiset(),
            add@.to_multiset().add(common.to_multiset()) == b@.take(j as int).to_multiset(),
            forall|p: int, k: int|
                0 <= p < rem@.len() && j <= k < b@.len() ==> rank(#[trigger] rem@[p]) < rank(
                    #[trigger] b@[k],
                ),
            forall|p: int, k: int|
                0 <= p < add@.len() && j <= k < b@.len() ==> rank(#[trigger] add@[p]) <= rank(
                    #[trigger] b@[k],
                ),
            forall|p: int, q: int|
                0 <= p < rem@.len() && 0 <= q < add@.len() ==> #[trigger] rem@[p] != #[trigger] add@[q],
        decreases b@.len() - j,
    {
        let y = b[j];
        assert(b@.take(j + 1) =~= b@.take(j as int).push(y));
        let ghost d0 = add@;
        add.push(y);
        proof {
            assert forall|p: int, q: int| 0 <= p < rem@.len() && 0 <= q < add@.len() implies #[trigger] rem@[p]
                != #[trigger] add@[q] by {
                if q == d0.len() {
                    assert(rank(rem@[p]) < rank(b@[j as int]));
                } else {
                    assert(add@[q] == d0[q]);
                }
            }
            assert forall|p: int, k: int| 0 <= p < add@.len() && j + 1 <= k < b@.len() implies rank(
                #[trigger] add@[p],
            ) <= rank(#[trigger] b@[k]) by {
                if p == d0.len() {
                    assert(rank(b@[j as int]) <= rank(b@[k]));
                } else {
                    assert(add@[p] == d0[p]);
                }
            }
            assert forall|p: int, q: int| 0 <= p < q < add@.len() implies rank(#[trigger] add@[p])
                <= rank(#[trigger] add@[q]) by {
                if q == d0.len() {
                    assert(add@[p] == d0[p]);
                } else {
                    assert(add@[p] == d0[p] && add@[q] == d0[q]);
                }
            }
            assert(add@.to_multiset() == d0.to_multiset().insert(y));
        }
        j = j + 1;
    }
    proof {
        assert(a@.take(i as int) =~= a@);
        assert(b@.take(j as int) =~= b@);
        let ra = rem@.to_multiset();
        let rb = add@.to_multiset();
        let c = common.to_multiset();
        assert forall|x: NodeId| #[trigger] rem@.to_multiset().count(x) == a@.to_multiset().count(x)
            - min_count(a@, b@, x) && add@.to_multiset().count(x) == b@.to_multiset().count(x)
            - min_count(a@, b@, x) by {
            assert(ra.add(c).count(x) == ra.count(x) + c.count(x));
            assert(rb.add(c).count(x) == rb.count(x) + c.count(x));
            if ra.count(x) > 0 && rb.count(x) > 0 {
                assert(rem@.contains(x));
                assert(add@.contains(x));
                let p = choose|p: int| 0 <= p < rem@.len() && rem@[p] == x;
                let q = choose|q: int| 0 <= q < add@.len() && add@[q] == x;
                assert(rem@[p] != add@[q]);
            }
        }
    }
    (rem, add)
}

/// The edits of one level of `node` that turn the neighbor list `old` into
/// `new`: what only `old` has is dropped and what only `new` has is added,
/// in byte order, the first of each paired into swaps.
pub fn diff_neighbors(node_id: &NodeId, level: u8, old: &[NodeId], new: &[NodeId]) -> (r: Vec<TapeMutation>)
    ensures
        exists|rem: Seq<NodeId>, add: Seq<NodeId>|
            is_difference(old@, new@, rem, add) && r@ == diff_mutations(*node_id, level, rem, add),
{
    let old_sorted = sorted_copy(old);
    let new_sorted = sorted_copy(new);
    let (removals, additions) = sorted_difference(&old_sorted, &new_sorted);
    proof {
        assert(forall|x: NodeId| #[trigger] min_count(old_sorted@, new_sorted@, x) == min_count(old@, new@, x));
        assert(is_difference(old@, new@, removals@, additions@));
    }
    let swap_count = if removals.len() < additions.len() {
        removals.len()
    } else {
        additions.len()
    };
    let node = *node_id;
    let mut mutations: Vec<TapeMutation> = Vec::new();
    let mut k: usize = 0;
    while k < swap_count
        invariant
            k <= swap_count,
            swap_count <= removals@.len(),
            swap_count <= additions@.len(),
            mutations@ == Seq::new(
                k as nat,
                |t: int| TapeMutation::Swap { node, level, old: removals@[t], new: additions@[t] },
            ),
        decreases swap_count - k,
    {
        mutations.push(TapeMutation::Swap { node, level, old: removals[k], new: additions[k] });
        assert(mutations@ =~= Seq::new(
            (k + 1) as nat,
            |t: int| TapeMutation::Swap { node, level, old: removals@[t], new: additions@[t] },
        ));
        k = k + 1;
    }
    let ghost swaps = mutations@;
    let mut d: usize = swap_count;
    while d < removals.len()
        invariant
            swap_count <= d <= removals@.len(),
            mutations@ == swaps + Seq::new(
                (d - swap_count) as nat,
                |t: int| TapeMutation::Drop { node, level, neighbor: removals@[swap_count + t] },
            ),
        decreases removals@.len() - d,
    {
        mutations.push(TapeMutation::Drop { node, level, neighbor: removals[d] });
        assert(mutations@ =~= swaps + Seq::new(
            (d + 1 - swap_count) as nat,
            |t: int| TapeMutation::Drop { node, level, neighbor: removals@[swap_count + t] },
        ));
        d = d + 1;
    }
    let ghost drops = mutations@;
    let mut a: usize = swap_count;
    while a < additions.len()
        invariant
            swap_count <= a <= additions@.len(),
            mutations@ == drops + Seq::new(
                (a - swap_count) as nat,
                |t: int| TapeMutation::Add { node, level, neighbor: additions@[swap_count + t] },
            ),
        decreases additions@.len() - a,
    {
        mutations.push(TapeMutation::Add { node, level, neighbor: additions[a] });
        assert(mutations@ =~= drops + Seq::new(
            (a + 1 - swap_count) as nat,
            |t: int| TapeMutation::Add { node, level, neighbor: additions@[swap_count + t] },
        ));
        a = a + 1;
    }
    assert(mutations@ =~= diff_mutations(node, level, removals@, additions@));
    mutations
}

} // verus!
