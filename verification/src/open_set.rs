use vstd::multiset::{lemma_multiset_empty_len, Multiset};
use vstd::prelude::*;
use vstd::seq_lib::{to_multiset_insert, to_multiset_remove};

verus! {

/// A cell waiting to be expanded: its cost so far `g` and its estimated total
/// cost `f`.
#[derive(Clone, Copy, Debug)]
pub struct Node {
    pub f: u128,
    pub g: usize,
    pub x: usize,
    pub y: usize,
}

/// The order in which waiting cells leave: smaller `f` first, then smaller
/// `g`, then smaller `y`, then smaller `x`.
pub open spec fn key_lt(a: Node, b: Node) -> bool {
    a.f < b.f || (a.f == b.f && (a.g < b.g || (a.g == b.g && (a.y < b.y || (a.y == b.y && a.x
        < b.x)))))
}

/// Whether `a` leaves no later than `b`.
pub open spec fn key_le(a: Node, b: Node) -> bool {
    a == b || key_lt(a, b)
}

/// Whether `a` leaves before `b`.
pub fn leaves_before(a: &Node, b: &Node) -> (before: bool)
    ensures
        before == key_lt(*a, *b),
{
    if a.f != b.f {
        a.f < b.f
    } else if a.g != b.g {
        a.g < b.g
    } else if a.y != b.y {
        a.y < b.y
    } else {
        a.x < b.x
    }
}

/// The slot above slot `i` of a binary heap.
pub open spec fn parent(i: int) -> int {
    (i - 1) / 2
}

/// No entry leaves before the entry in the slot above it.
pub open spec fn heap_ordered(s: Seq<Node>) -> bool {
    forall|i: int| 1 <= i < s.len() ==> key_le(s[parent(i)], #[trigger] s[i])
}

/// Heap order everywhere but between slot `hole` and the slot above it; the
/// slots below `hole` are in order with the slot above it.
pub open spec fn ordered_but_above(s: Seq<Node>, hole: int) -> bool {
    &&& forall|i: int| 1 <= i < s.len() && i != hole ==> key_le(s[parent(i)], #[trigger] s[i])
    &&& forall|i: int|
        1 <= i < s.len() && parent(i) == hole && hole >= 1 ==> key_le(
            s[parent(hole)],
            #[trigger] s[i],
        )
}

/// Heap order everywhere but between slot `hole` and the slots below it; the
/// slots below `hole` are in order with the slot above it.
pub open spec fn ordered_but_below(s: Seq<Node>, hole: int) -> bool {
    &&& forall|i: int|
        1 <= i < s.len() && parent(i) != hole ==> key_le(s[parent(i)], #[trigger] s[i])
    &&& forall|i: int|
        1 <= i < s.len() && parent(i) == hole && hole >= 1 ==> key_le(
            s[parent(hole)],
            #[trigger] s[i],
        )
}

/// In a heap the first entry leaves before every other.
pub proof fn lemma_heap_root_least(s: Seq<Node>, i: int)
    requires
        heap_ordered(s),
        0 <= i < s.len(),
    ensures
        key_le(s[0], s[i]),
    decreases i,
{
    if i > 0 {
        lemma_heap_root_least(s, parent(i));
        assert(key_le(s[parent(i)], s[i]));
    }
}

/// Replacing one entry takes the old entry out of the contents and puts the
/// new one in.
pub proof fn lemma_update_contents(s: Seq<Node>, i: int, node: Node)
    requires
        0 <= i < s.len(),
    ensures
        s.update(i, node).to_multiset() =~= s.to_multiset().remove(s[i]).insert(node),
{
    to_multiset_remove(s, i);
    to_multiset_insert(s.remove(i), i, node);
    assert(s.remove(i).insert(i, node) =~= s.update(i, node));
}

/// Exchanging two entries leaves the contents as they were.
pub proof fn lemma_swap_contents(s: Seq<Node>, i: int, j: int)
    requires
        0 <= i < s.len(),
        0 <= j < s.len(),
    ensures
        s.update(i, s[j]).update(j, s[i]).to_multiset() =~= s.to_multiset(),
{
    broadcast use vstd::multiset::group_multiset_axioms;

    s.to_multiset_ensures();
    assert(s.contains(s[i]) && s.contains(s[j]));
    lemma_update_contents(s, i, s[j]);
    lemma_update_contents(s.update(i, s[j]), j, s[i]);
}

/// The cells waiting to be expanded, kept as a binary heap. `pop` hands out
/// the least one by `key_lt`.
pub struct OpenSet {
    nodes: Vec<Node>,
}

impl View for OpenSet {
    type V = Multiset<Node>;

    closed spec fn view(&self) -> Multiset<Node> {
        self.nodes@.to_multiset()
    }
}

impl OpenSet {
    /// The entries are in heap order.
    pub closed spec fn wf(&self) -> bool {
        heap_ordered(self.nodes@)
    }

    /// An open set in which nothing waits.
    pub fn new() -> (open: Self)
        ensures
            open.wf(),
            open@ =~= Multiset::empty(),
    {
        let open = OpenSet { nodes: Vec::new() };
        proof {
            open.nodes@.to_multiset_ensures();
            lemma_multiset_empty_len(open@);
        }
        open
    }

    fn swap(&mut self, i: usize, j: usize)
        requires
            i < old(self).nodes@.len(),
            j < old(self).nodes@.len(),
        ensures
            final(self).nodes@ == old(self).nodes@.update(i as int, old(self).nodes@[j as int]).update(
                j as int,
                old(self).nodes@[i as int],
            ),
            final(self)@ =~= old(self)@,
    {
        proof {
            lemma_swap_contents(self.nodes@, i as int, j as int);
        }
        let a: Node = self.nodes[i];
        let b: Node = self.nodes[j];
        self.nodes[i] = b;
        self.nodes[j] = a;
    }

    /// Adds a waiting cell.
    pub fn push(&mut self, node: Node)
        requires
            old(self).wf(),
        ensures
            final(self).wf(),
            final(self)@ =~= old(self)@.insert(node),
    {
        proof {
            self.nodes@.to_multiset_ensures();
        }
        self.nodes.push(node);
        let mut i: usize = self.nodes.len() - 1;
        while i > 0 && leaves_before(&self.nodes[i], &self.nodes[(i - 1) / 2])
            invariant
                i < self.nodes@.len(),
                ordered_but_above(self.nodes@, i as int),
                self@ =~= old(self)@.insert(node),
            decreases i,
        {
            let up: usize = (i - 1) / 2;
            let ghost before = self.nodes@;
            self.swap(i, up);
            proof {
                let after = self.nodes@;
                assert forall|j: int| 1 <= j < after.len() && j != up implies key_le(
                    after[parent(j)],
                    #[trigger] after[j],
                ) by {
                    if j != i && parent(j) != i {
                        assert(key_le(before[parent(j)], before[j]));
                    }
                    if parent(j) == i {
                        assert(key_le(before[parent(i as int)], before[j]));
                    }
                }
                assert forall|j: int|
                    1 <= j < after.len() && parent(j) == up && up >= 1 implies key_le(
                    after[parent(up as int)],
                    #[trigger] after[j],
                ) by {
                    assert(key_le(before[parent(up as int)], before[up as int]));
                    if j != i {
                        assert(key_le(before[parent(j)], before[j]));
                    }
                }
            }
            i = up;
        }
    }

    /// Restores heap order after the first entry has been replaced.
    fn sift_down(&mut self)
        requires
            ordered_but_below(old(self).nodes@, 0),
        ensures
            final(self).wf(),
            final(self)@ =~= old(self)@,
    {
        let len: usize = self.nodes.len();
        let mut i: usize = 0;
        let mut moving: bool = true;
        while moving
            invariant
                len == self.nodes@.len(),
                i < len || len == 0,
                ordered_but_below(self.nodes@, i as int),
                !moving ==> heap_ordered(self.nodes@),
                self@ =~= old(self)@,
            decreases len - i, if moving { 1nat } else { 0nat },
        {
            if i >= len / 2 {
                moving = false;
            } else {
                let left: usize = 2 * i + 1;
                let right: usize = left + 1;
                let child: usize = if right < len && leaves_before(
                    &self.nodes[right],
                    &self.nodes[left],
                ) {
                    right
                } else {
                    left
                };
                if leaves_before(&self.nodes[child], &self.nodes[i]) {
                    let ghost before = self.nodes@;
                    self.swap(i, child);
                    proof {
                        let after = self.nodes@;
                        assert forall|j: int|
                            1 <= j < after.len() && parent(j) != child implies key_le(
                            after[parent(j)],
                            #[trigger] after[j],
                        ) by {
                            if parent(j) == i {
                                if j != child {
                                    assert(j == left || j == right);
                                }
                            } else if j == i {
                                assert(key_le(before[parent(i as int)], before[child as int]));
                            } else {
                                assert(key_le(before[parent(j)], before[j]));
                            }
                        }
                        assert forall|j: int|
                            1 <= j < after.len() && parent(j) == child && child >= 1 implies key_le(
                            after[parent(child as int)],
                            #[trigger] after[j],
                        ) by {
                            assert(key_le(before[parent(j)], before[j]));
                        }
                    }
                    i = child;
                } else {
                    proof {
                        let s = self.nodes@;
                        assert forall|j: int| 1 <= j < s.len() implies key_le(
                            s[parent(j)],
                            #[trigger] s[j],
                        ) by {
                            if parent(j) == i {
                                assert(j == left || j == right);
                            }
                        }
                    }
                    moving = false;
                }
            }
        }
    }

    /// Removes and returns the least waiting cell, if any.
    pub fn pop(&mut self) -> (least: Option<Node>)
        requires
            old(self).wf(),
        ensures
            final(self).wf(),
            least is None <==> old(self)@.len() == 0,
            least is None ==> final(self)@ == old(self)@,
            least matches Some(node) ==> {
                &&& old(self)@.count(node) > 0
                &&& final(self)@ =~= old(self)@.remove(node)
                &&& forall|other: Node| old(self)@.count(other) > 0 ==> key_le(node, other)
            },
    {
        proof {
            self.nodes@.to_multiset_ensures();
        }
        if self.nodes.len() == 0 {
            return None;
        }
        let ghost before = self.nodes@;
        let node: Node = self.nodes[0];
        proof {
            assert(before.contains(node));
            assert forall|other: Node| self@.count(other) > 0 implies key_le(node, other) by {
                assert(before.contains(other));
                let k = choose|k: int| 0 <= k < before.len() && before[k] == other;
                lemma_heap_root_least(before, k);
            }
        }
        let last: Node = self.nodes.pop().unwrap();
        proof {
            assert(self.nodes@ =~= before.remove(before.len() - 1));
            to_multiset_remove(before, before.len() - 1);
        }
        if self.nodes.len() > 0 {
            let ghost shorter = self.nodes@;
            self.nodes[0] = last;
            proof {
                broadcast use vstd::multiset::group_multiset_axioms;

                lemma_update_contents(shorter, 0, last);
                shorter.to_multiset_ensures();
                assert(shorter.contains(node));
                assert forall|j: int|
                    1 <= j < self.nodes@.len() && parent(j) != 0 implies key_le(
                    self.nodes@[parent(j)],
                    #[trigger] self.nodes@[j],
                ) by {
                    assert(key_le(before[parent(j)], before[j]));
                }
            }
            self.sift_down();
        }
        Some(node)
    }
}

} // verus!
