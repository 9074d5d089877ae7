//! Constructive solid geometry.
//!
//! A CSG group combines a left and a right operand with a boolean set
//! operation. A ray gathers hit records from both operands, sorted by
//! ascending distance; a single left-to-right walk then keeps exactly the
//! hits that lie on the combined solid's surface. The walk carries two
//! parity flags — whether the ray is currently inside the left operand and
//! inside the right one — and consults a truth table keyed by the operation,
//! by which operand was hit, and by the two flags.

use vstd::prelude::*;

use crate::shape_id::ShapeTree;

verus! {

/// How a group combines its children: an ordinary group concatenates their
/// hits, a CSG group combines exactly two operands with a set operation.
#[derive(Debug, PartialEq, Eq, Structural)]
pub enum Operation {
    Difference,
    Intersection,
    Group,
    Union,
}

/// The CSG truth table: whether a hit is kept, given the operation, whether
/// the hit lies on the left operand (`lhit`), and whether the ray is
/// currently inside the left (`inl`) and right (`inr`) operand. An ordinary
/// group keeps no hit by this rule; it never consults it.
pub open spec fn intersection_rule(op: Operation, lhit: bool, inl: bool, inr: bool) -> bool {
    match op {
        Operation::Union => (lhit && !inr) || (!lhit && !inl),
        Operation::Intersection => (lhit && inr) || (!lhit && inl),
        Operation::Difference => (lhit && !inr) || (!lhit && inl),
        Operation::Group => false,
    }
}

/// The indices (from position `k` on) of the hits kept by the CSG walk,
/// given the left-membership flag of every hit and the parity state at `k`.
pub open spec fn kept_indices(
    op: Operation,
    lhits: Seq<bool>,
    k: int,
    inl: bool,
    inr: bool,
) -> Seq<int>
    decreases lhits.len() - k,
{
    if k < 0 || k >= lhits.len() {
        Seq::empty()
    } else {
        let rest = if lhits[k] {
            kept_indices(op, lhits, k + 1, !inl, inr)
        } else {
            kept_indices(op, lhits, k + 1, inl, !inr)
        };
        if intersection_rule(op, lhits[k], inl, inr) {
            seq![k] + rest
        } else {
            rest
        }
    }
}

/// Which hits of a sorted list belong to the left operand `left`, for a
/// list described by the identifiers of the shapes that own each hit.
pub open spec fn left_hits(left: ShapeTree, ids: Seq<u128>) -> Seq<bool> {
    ids.map_values(|id: u128| left.id_set().contains(id))
}

impl Operation {
    /// One row of the CSG truth table. Only a CSG operation may ask;
    /// an ordinary group has no notion of kept hits.
    pub fn intersection_allowed(&self, lhit: bool, inl: bool, inr: bool) -> (r: bool)
        requires
            !(*self is Group),
        ensures
            r == intersection_rule(*self, lhit, inl, inr),
    {
        match self {
            Operation::Union => (lhit && !inr) || (!lhit && !inl),
            Operation::Intersection => (lhit && inr) || (!lhit && inl),
            Operation::Difference => (lhit && !inr) || (!lhit && inl),
            Operation::Group => {
                proof {
                    assert(false);
                }
                false
            },
        }
    }
}

/// The CSG filter: walk the hits of both operands, sorted by ascending
/// distance and described by the identifier of the shape that owns each
/// hit, and return the indices of the hits that lie on the combined
/// surface, in their original order. `left` is the left operand's identity
/// tree; a hit belongs to the left operand iff its identifier occurs there.
pub fn filter_intersections(op: &Operation, left: &ShapeTree, ids: &Vec<u128>) -> (kept: Vec<
    usize,
>)
    requires
        !(*op is Group),
    ensures
        kept@.map_values(|u: usize| u as int) == kept_indices(
            *op,
            left_hits(*left, ids@),
            0,
            false,
            false,
        ),
        forall|j: int| 0 <= j < kept@.len() ==> #[trigger] kept@[j] < ids@.len(),
{
    let ghost lhits = left_hits(*left, ids@);
    let mut kept: Vec<usize> = Vec::new();
    let mut inl = false;
    let mut inr = false;
    let mut i: usize = 0;
    proof {
        assert(lhits.len() == ids@.len());
    }
    while i < ids.len()
        invariant
            i <= ids.len(),
            lhits == left_hits(*left, ids@),
            lhits.len() == ids@.len(),
            kept@.map_values(|u: usize| u as int) + kept_indices(*op, lhits, i as int, inl, inr)
                == kept_indices(*op, lhits, 0, false, false),
            !(*op is Group),
        decreases ids.len() - i,
    {
        let lhit = left.contains(ids[i]);
        proof {
            assert(lhits[i as int] == lhit);
        }
        let ghost kept_before = kept@;
        if op.intersection_allowed(lhit, inl, inr) {
            kept.push(i);
            proof {
                assert(kept@.map_values(|u: usize| u as int) =~= kept_before.map_values(
                    |u: usize| u as int,
                ).push(i as int));
                assert(kept_before.map_values(|u: usize| u as int).push(i as int) + kept_indices(
                    *op,
                    lhits,
                    i + 1,
                    if lhits[i as int] {
                        !inl
                    } else {
                        inl
                    },
                    if lhits[i as int] {
                        inr
                    } else {
                        !inr
                    },
                ) =~= kept_before.map_values(|u: usize| u as int) + kept_indices(
                    *op,
                    lhits,
                    i as int,
                    inl,
                    inr,
                ));
            }
        } else {
            proof {
                assert(kept@.map_values(|u: usize| u as int) + kept_indices(
                    *op,
                    lhits,
                    i + 1,
                    if lhits[i as int] {
                        !inl
                    } else {
                        inl
                    },
                    if lhits[i as int] {
                        inr
                    } else {
                        !inr
                    },
                ) =~= kept@.map_values(|u: usize| u as int) + kept_indices(
                    *op,
                    lhits,
                    i as int,
                    inl,
                    inr,
                ));
            }
        }
        if lhit {
            inl = !inl;
        } else {
            inr = !inr;
        }
        i = i + 1;
    }
    proof {
        assert(kept@.map_values(|u: usize| u as int) + kept_indices(*op, lhits, i as int, inl, inr)
            =~= kept@.map_values(|u: usize| u as int));
        lemma_kept_indices_ascending(*op, lhits, 0, false, false);
        assert forall|j: int| 0 <= j < kept@.len() implies #[trigger] kept@[j] < ids@.len() by {
            assert(kept@.map_values(|u: usize| u as int)[j] == kept@[j] as int);
        }
    }
    kept
}

/// Every index the CSG walk keeps points into the hit list, and the kept
/// indices are strictly ascending: filtering keeps the ascending-distance
/// order of the hits and never duplicates one.
pub proof fn lemma_kept_indices_ascending(
    op: Operation,
    lhits: Seq<bool>,
    k: int,
    inl: bool,
    inr: bool,
)
    ensures
        forall|j: int|
            0 <= j < kept_indices(op, lhits, k, inl, inr).len() ==> k <= #[trigger] kept_indices(
                op,
                lhits,
                k,
                inl,
                inr,
            )[j] < lhits.len(),
        forall|j: int|
            0 < j < kept_indices(op, lhits, k, inl, inr).len() ==> kept_indices(
                op,
                lhits,
                k,
                inl,
                inr,
            )[j - 1] < #[trigger] kept_indices(op, lhits, k, inl, inr)[j],
    decreases lhits.len() - k,
{
    if 0 <= k < lhits.len() {
        let inl2 = if lhits[k] {
            !inl
        } else {
            inl
        };
        let inr2 = if lhits[k] {
            inr
        } else {
            !inr
        };
        lemma_kept_indices_ascending(op, lhits, k + 1, inl2, inr2);
        let rest = kept_indices(op, lhits, k + 1, inl2, inr2);
        assert forall|j: int|
            0 <= j < kept_indices(op, lhits, k, inl, inr).len() implies k <= #[trigger] kept_indices(
            op,
            lhits,
            k,
            inl,
            inr,
        )[j] < lhits.len() by {
            let r = kept_indices(op, lhits, k, inl, inr);
            if intersection_rule(op, lhits[k], inl, inr) {
                assert(r == seq![k] + rest);
                if j == 0 {
                    assert(r[0] == k);
                } else {
                    assert(r[j] == rest[j - 1]);
                }
            } else {
                assert(r == rest);
            }
        }
        assert forall|j: int|
            0 < j < kept_indices(op, lhits, k, inl, inr).len() implies kept_indices(
            op,
            lhits,
            k,
            inl,
            inr,
        )[j - 1] < #[trigger] kept_indices(op, lhits, k, inl, inr)[j] by {
            let r = kept_indices(op, lhits, k, inl, inr);
            if intersection_rule(op, lhits[k], inl, inr) {
                assert(r == seq![k] + rest);
                if j == 1 {
                    assert(r[0] == k);
                    assert(r[1] == rest[0]);
                } else {
                    assert(r[j - 1] == rest[j - 2]);
                    assert(r[j] == rest[j - 1]);
                }
            } else {
                assert(r == rest);
            }
        }
    }
}

} // verus!
