//! Identity structure of the shape forest.
//!
//! Every shape carries a unique identifier. Groups own an ordered list of
//! children, and membership queries ("does this subtree own that hit
//! record?") recurse through the nesting. Constructive-solid-geometry
//! filtering needs exactly this membership test to decide which operand a
//! hit belongs to.

use vstd::prelude::*;

verus! {

/// The identifier structure of one shape: a leaf primitive, or a group
/// whose children are shapes in turn. A group answers membership queries
/// through its children alone; its own identifier never owns a hit record.
pub enum ShapeTree {
    Leaf(u128),
    Group(u128, Vec<ShapeTree>),
}

impl ShapeTree {
    /// The set of identifiers that can own a hit record inside this subtree.
    pub open spec fn id_set(self) -> Set<u128>
        decreases self,
    {
        match self {
            ShapeTree::Leaf(id) => set![id],
            ShapeTree::Group(_, children) => Self::id_set_of_children(children@),
        }
    }

    /// Union of the identifier sets of a sequence of subtrees.
    pub open spec fn id_set_of_children(children: Seq<ShapeTree>) -> Set<u128>
        decreases children,
    {
        if children.len() == 0 {
            Set::empty()
        } else {
            Self::id_set_of_children(children.drop_last()) + children.last().id_set()
        }
    }

    /// Appending one more child adds exactly that child's identifiers.
    pub proof fn lemma_id_set_push(children: Seq<ShapeTree>, child: ShapeTree)
        ensures
            Self::id_set_of_children(children.push(child))
                == Self::id_set_of_children(children) + child.id_set(),
    {
        assert(children.push(child).drop_last() =~= children);
        assert(children.push(child).last() == child);
    }

    /// Whether some shape in this subtree carries the identifier `id`:
    /// a leaf answers for itself, a group for any of its children.
    pub fn contains(&self, id: u128) -> (r: bool)
        ensures
            r == self.id_set().contains(id),
        decreases *self,
    {
        match self {
            ShapeTree::Leaf(own) => *own == id,
            ShapeTree::Group(gid, children) => {
                let mut found = false;
                let mut i: usize = 0;
                while i < children.len()
                    invariant
                        *self == ShapeTree::Group(*gid, *children),
                        i <= children.len(),
                        found == Self::id_set_of_children(children@.take(i as int)).contains(id),
                    decreases children.len() - i,
                {
                    proof {
                        assert(self->Group_1 == *children);
                        assert(decreases_to!(*self => self->Group_1));
                        assert(decreases_to!(*children => children@));
                        assert(decreases_to!(children@ => children@[i as int]));
                    }
                    if children[i].contains(id) {
                        found = true;
                    }
                    proof {
                        children@.lemma_take_succ_push(i as int);
                        Self::lemma_id_set_push(children@.take(i as int), children@[i as int]);
                    }
                    i = i + 1;
                }
                proof {
                    assert(children@.take(children@.len() as int) =~= children@);
                }
                found
            },
        }
    }
}

} // verus!
