use vstd::prelude::*;
use crate::piece::Piece;
use crate::relabel::{bump, bump_opt, shift_node, shift_slot, shifted_nodes};

verus! {

/// The color of a red-black tree node.
#[derive(Clone, Copy, Debug, PartialEq, Eq, Structural)]
pub enum Color {
    Red,
    Black,
}

/// A tree node: a piece, the byte and line feed totals of its left subtree, its color
/// and the slots of its children and parent.
pub struct Node {
    pub piece: Piece,
    pub left_char_count: usize,
    pub left_line_count: usize,
    pub color: Color,
    pub left: Option<usize>,
    pub right: Option<usize>,
    pub parent: Option<usize>,
}

/// The slots of the nodes; a freed slot is empty and listed for reuse.
pub struct NodeArena {
    nodes: Vec<Option<Node>>,
    free_list: Vec<usize>,
}

impl NodeArena {
    /// The slots, in order.
    pub closed spec fn slots(&self) -> Seq<Option<Node>> {
        self.nodes@
    }

    /// The freed slots, the most recently freed last.
    pub closed spec fn free_slots(&self) -> Seq<usize> {
        self.free_list@
    }

    /// The free list names exactly the empty slots, each once.
    pub open spec fn wf(&self) -> bool {
        &&& self.free_slots().no_duplicates()
        &&& forall|k: int| 0 <= k < self.free_slots().len() ==> {
            &&& #[trigger] self.free_slots()[k] < self.slots().len()
            &&& self.slots()[self.free_slots()[k] as int] is None
        }
        &&& forall|i: int| 0 <= i < self.slots().len() && #[trigger] self.slots()[i] is None
            ==> self.free_slots().contains(i as usize)
    }

    /// The slot that the next `allocate` fills.
    pub open spec fn next_slot(&self) -> usize {
        if self.free_slots().len() > 0 {
            self.free_slots().last()
        } else {
            self.slots().len() as usize
        }
    }

    /// The number of slots.
    pub fn slot_count(&self) -> (r: usize)
        ensures
            r == self.slots().len(),
    {
        self.nodes.len()
    }

    /// An arena without slots.
    pub fn new() -> (r: Self)
        ensures
            r.slots() == Seq::<Option<Node>>::empty(),
            r.free_slots() == Seq::<usize>::empty(),
            r.wf(),
    {
        Self { nodes: Vec::new(), free_list: Vec::new() }
    }

    /// Stores `node` in the most recently freed slot, or in a new slot at the end, and
    /// returns that slot.
    pub fn allocate(&mut self, node: Node) -> (idx: usize)
        requires
            old(self).free_slots().len() > 0 ==> old(self).free_slots().last() < old(self).slots().len(),
            old(self).free_slots().len() == 0 ==> old(self).slots().len() < usize::MAX,
        ensures
            idx == old(self).next_slot(),
            old(self).free_slots().len() > 0 ==> {
                &&& final(self).slots() == old(self).slots().update(idx as int, Some(node))
                &&& final(self).free_slots() == old(self).free_slots().drop_last()
            },
            old(self).free_slots().len() == 0 ==> {
                &&& final(self).slots() == old(self).slots().push(Some(node))
                &&& final(self).free_slots() == old(self).free_slots()
            },
            old(self).wf() ==> final(self).wf(),
    {
        if let Some(idx) = self.free_list.pop() {
            self.nodes.set(idx, Some(node));
            let slot_count = self.nodes.len();
            proof {
                assert(slot_count == self.slots().len());
                let s = self.free_slots();
                let o = old(self).free_slots();
                assert(o.drop_last() =~= s);
                if old(self).wf() {
                    assert forall|k: int| 0 <= k < s.len() implies {
                        &&& #[trigger] s[k] < self.slots().len()
                        &&& self.slots()[s[k] as int] is None
                    } by {
                        assert(o[k] != o[o.len() - 1]);
                    }
                    assert forall|i: int| 0 <= i < self.slots().len() && #[trigger] self.slots()[i] is None
                        implies s.contains(i as usize) by {
                        assert(self.slots()[idx as int] is Some);
                        assert(i != idx as int);
                        assert(o[o.len() - 1] == idx);
                        assert((i as usize) as int == i);
                        assert(old(self).slots()[i] is None);
                        let k = choose|k: int| 0 <= k < o.len() && o[k] == i as usize;
                        assert(k != o.len() - 1);
                        assert(s[k] == i as usize);
                    }
                }
            }
            idx
        } else {
            self.nodes.push(Some(node));
            proof {
                if old(self).wf() {
                    assert forall|i: int| 0 <= i < self.slots().len() && #[trigger] self.slots()[i] is None
                        implies self.free_slots().contains(i as usize) by {
                        assert(old(self).slots()[i] is None);
                    }
                }
            }
            self.nodes.len() - 1
        }
    }

    /// The node in an occupied slot.
    pub fn get(&self, idx: usize) -> (r: &Node)
        requires
            idx < self.slots().len(),
            self.slots()[idx as int] is Some,
        ensures
            *r == self.slots()[idx as int].unwrap(),
    {
        self.nodes[idx].as_ref().unwrap()
    }

    /// The node in an occupied slot, for changing it in place.
    pub fn get_mut(&mut self, idx: usize) -> (r: &mut Node)
        requires
            idx < old(self).slots().len(),
            old(self).slots()[idx as int] is Some,
        ensures
            *r == old(self).slots()[idx as int].unwrap(),
            final(self).slots() == old(self).slots().update(idx as int, Some(*final(r))),
            final(self).free_slots() == old(self).free_slots(),
    {
        self.nodes[idx].as_mut().unwrap()
    }

    /// Empties a slot and lists it for reuse.
    pub fn free(&mut self, idx: usize)
        requires
            idx < old(self).slots().len(),
        ensures
            final(self).slots() == old(self).slots().update(idx as int, None),
            final(self).free_slots() == old(self).free_slots().push(idx),
            old(self).wf() && old(self).slots()[idx as int] is Some ==> final(self).wf(),
    {
        self.nodes.set(idx, None);
        self.free_list.push(idx);
        proof {
            let s = self.free_slots();
            let o = old(self).free_slots();
            if old(self).wf() && old(self).slots()[idx as int] is Some {
                assert(!o.contains(idx));
                assert forall|a: int, b: int| 0 <= a < b < s.len() implies s[a] != s[b] by {
                    if b == s.len() - 1 {
                        assert(s[a] == o[a]);
                    }
                }
                assert forall|k: int| 0 <= k < s.len() implies {
                    &&& #[trigger] s[k] < self.slots().len()
                    &&& self.slots()[s[k] as int] is None
                } by {
                    if k < o.len() {
                        assert(s[k] == o[k]);
                    }
                }
                assert forall|i: int| 0 <= i < self.slots().len() && #[trigger] self.slots()[i] is None
                    implies s.contains(i as usize) by {
                    if i == idx {
                        assert(s[s.len() - 1] == idx);
                    } else {
                        assert(old(self).slots()[i] is None);
                        let k = choose|k: int| 0 <= k < o.len() && o[k] == i as usize;
                        assert(s[k] == i as usize);
                    }
                }
            }
        }
    }
}


/// Slot `i` after a new slot is opened at `pos`.
fn bump_index(i: usize, pos: usize) -> (r: usize)
    requires
        i < usize::MAX,
    ensures
        r == bump(i, pos),
{
    if i >= pos { i + 1 } else { i }
}

/// A slot link after a new slot is opened at `pos`.
fn bump_link(o: Option<usize>, pos: usize) -> (r: Option<usize>)
    requires
        o matches Some(i) ==> i < usize::MAX,
    ensures
        r == bump_opt(o, pos),
{
    match o {
        Some(i) => Some(bump_index(i, pos)),
        None => None,
    }
}

/// The links of `n` name slots below `len`.
pub open spec fn links_below(n: Node, len: nat) -> bool {
    &&& n.left matches Some(i) ==> i < len
    &&& n.right matches Some(i) ==> i < len
    &&& n.parent matches Some(i) ==> i < len
}

impl NodeArena {
    /// Opens a new slot holding `node` at `pos`: the slots from `pos` on, and every link
    /// and free list entry naming them, move up by one.
    pub fn insert_slot(&mut self, pos: usize, node: Node)
        requires
            pos <= old(self).slots().len(),
            old(self).slots().len() < usize::MAX,
            old(self).wf(),
            forall|i: int| 0 <= i < old(self).slots().len() && #[trigger] old(self).slots()[i] is Some ==> links_below(
                old(self).slots()[i].unwrap(),
                old(self).slots().len(),
            ),
        ensures
            final(self).slots() == shifted_nodes(old(self).slots(), pos, Some(node)),
            final(self).free_slots() == old(self).free_slots().map_values(|f: usize| bump(f, pos)),
            final(self).wf(),
    {
        let n = self.nodes.len();
        let mut i: usize = 0;
        while i < n
            invariant
                n == old(self).slots().len(),
                self.slots().len() == n,
                i <= n,
                n < usize::MAX,
                forall|j: int| 0 <= j < i ==> #[trigger] self.slots()[j] == shift_slot(old(self).slots()[j], pos),
                forall|j: int| i <= j < n ==> #[trigger] self.slots()[j] == old(self).slots()[j],
                self.free_slots() == old(self).free_slots(),
                forall|k: int| 0 <= k < n && #[trigger] old(self).slots()[k] is Some ==> links_below(
                    old(self).slots()[k].unwrap(),
                    n as nat,
                ),
            decreases n - i,
        {
            if self.nodes[i].is_some() {
                proof {
                    assert(old(self).slots()[i as int] is Some);
                }
                let x = self.get_mut(i);
                x.left = bump_link(x.left, pos);
                x.right = bump_link(x.right, pos);
                x.parent = bump_link(x.parent, pos);
            }
            proof {
                assert(self.slots()[i as int] == shift_slot(old(self).slots()[i as int], pos));
            }
            i += 1;
        }
        self.nodes.insert(pos, Some(node));
        proof {
            assert(self.slots() =~= shifted_nodes(old(self).slots(), pos, Some(node)));
        }
        let m = self.free_list.len();
        let mut k: usize = 0;
        while k < m
            invariant
                m == old(self).free_slots().len(),
                self.free_slots().len() == m,
                k <= m,
                n < usize::MAX,
                n == old(self).slots().len(),
                old(self).wf(),
                self.slots() == shifted_nodes(old(self).slots(), pos, Some(node)),
                forall|j: int| 0 <= j < k ==> #[trigger] self.free_slots()[j] == bump(old(self).free_slots()[j], pos),
                forall|j: int| k <= j < m ==> #[trigger] self.free_slots()[j] == old(self).free_slots()[j],
            decreases m - k,
        {
            let f = self.free_list[k];
            proof {
                assert(old(self).free_slots()[k as int] < n);
            }
            self.free_list.set(k, bump_index(f, pos));
            k += 1;
        }
        proof {
            let o = old(self).free_slots();
            let s = self.free_slots();
            assert(s =~= o.map_values(|f: usize| bump(f, pos)));
            let os = old(self).slots();
            let ns = self.slots();
            assert forall|a: int, b: int| 0 <= a < b < s.len() implies s[a] != s[b] by {
                assert(o[a] != o[b]);
            }
            assert(s.no_duplicates());
            assert forall|q: int| 0 <= q < s.len() implies {
                &&& #[trigger] s[q] < ns.len()
                &&& ns[s[q] as int] is None
            } by {
                assert(o[q] < os.len());
                assert(os[o[q] as int] is None);
                crate::relabel::lemma_shifted_node(os, pos, Some(node), o[q]);
            }
            assert forall|j: int| 0 <= j < ns.len() && #[trigger] ns[j] is None implies s.contains(j as usize) by {
                let u: int = if j > pos { j - 1 } else { j };
                assert(j != pos);
                assert(os[u] is None);
                assert((u as usize) as int == u);
                assert(os.contains(None::<Node>) || true);
                let q = choose|q: int| 0 <= q < o.len() && o[q] == u as usize;
                assert(s[q] == bump(u as usize, pos));
                assert(bump(u as usize, pos) == j as usize);
            }
        }
    }
}

} // verus!
