use vstd::prelude::*;

use crate::distance::{edit_distance, lev};

verus! {

/// Number of child slots per node. A child at slot `i` lies at edit distance
/// `i` from its parent's word, so only distances below this bound are
/// representable in the tree.
pub const CHILDREN_LENGTH: usize = 15;

/// The mathematical shape of a tree: a word and its child slots, slot `i`
/// either empty or holding the subtree whose every word lies at distance `i`
/// from this word.
pub struct SpecTree {
    pub word: Seq<char>,
    pub children: Seq<Option<SpecTree>>,
}

impl SpecTree {
    /// Every subtree view in pre-order: a node before its children, child
    /// slots visited in ascending index order.
    pub open spec fn preorder(self) -> Seq<SpecTree>
        decreases self, 0int,
    {
        seq![self] + preorder_from(self.children, 0)
    }

    /// Every word anywhere in this subtree lies at edit distance `d` from
    /// `from`, in both argument orders.
    pub open spec fn at_distance(self, from: Seq<char>, d: nat) -> bool
        decreases self,
    {
        &&& lev(from, self.word) == d
        &&& lev(self.word, from) == d
        &&& forall|j: int|
            0 <= j < self.children.len() && self.children[j] is Some
                ==> (#[trigger] self.children[j])->Some_0.at_distance(from, d)
    }

    /// Well-formedness: every node has exactly `CHILDREN_LENGTH` slots, and
    /// the whole subtree under slot `j` lies at distance `j` from the node's
    /// own word.
    pub open spec fn wf(self) -> bool
        decreases self,
    {
        &&& self.children.len() == CHILDREN_LENGTH
        &&& forall|j: int|
            0 <= j < self.children.len() && self.children[j] is Some
                ==> (#[trigger] self.children[j])->Some_0.wf()
                    && self.children[j]->Some_0.at_distance(self.word, j as nat)
    }
}

/// The pre-order views of the subtrees in slots `i` and above, concatenated.
pub open spec fn preorder_from(cs: Seq<Option<SpecTree>>, i: int) -> Seq<SpecTree>
    decreases cs, cs.len() - i,
{
    if i < 0 || i >= cs.len() {
        Seq::empty()
    } else {
        (match cs[i] {
            None => Seq::empty(),
            Some(c) => c.preorder(),
        }) + preorder_from(cs, i + 1)
    }
}

/// A tree with the given word at the root and every slot empty.
pub open spec fn spec_leaf(w: Seq<char>) -> SpecTree {
    SpecTree { word: w, children: Seq::new(CHILDREN_LENGTH as nat, |j: int| None) }
}

/// Insertion: descend along the slot of the exact distance between each
/// node's word and `w`; a leaf for `w` fills the first empty slot met. A word
/// whose distance to the node it reaches has no slot leaves the tree
/// unchanged.
pub open spec fn spec_add(t: SpecTree, w: Seq<char>) -> SpecTree
    decreases t,
{
    let d = lev(t.word, w) as int;
    if 0 <= d < t.children.len() {
        match t.children[d] {
            None => SpecTree { word: t.word, children: t.children.update(d, Some(spec_leaf(w))) },
            Some(c) => SpecTree {
                word: t.word,
                children: t.children.update(d, Some(spec_add(c, w))),
            },
        }
    } else {
        t
    }
}

/// Whether the descent of `spec_add` finds room for `w`: it meets an empty
/// slot before any distance reaches the slot bound.
pub open spec fn spec_placed(t: SpecTree, w: Seq<char>) -> bool
    decreases t,
{
    let d = lev(t.word, w) as int;
    0 <= d < t.children.len() && (match t.children[d] {
        None => true,
        Some(c) => spec_placed(c, w),
    })
}

/// Whether the word `w` stands at some node of the tree `t`.
pub open spec fn in_tree(t: SpecTree, w: Seq<char>) -> bool {
    exists|k: int| 0 <= k < t.preorder().len() && (#[trigger] t.preorder()[k]).word == w
}

/// Whether the word `w` stands somewhere in the subtree held by slot `j`.
pub open spec fn in_slot(cs: Seq<Option<SpecTree>>, j: int, w: Seq<char>) -> bool {
    0 <= j < cs.len() && cs[j] is Some && in_tree(cs[j]->Some_0, w)
}

/// Whether the word `w` stands somewhere below one of the slots.
pub open spec fn in_forest(cs: Seq<Option<SpecTree>>, w: Seq<char>) -> bool {
    exists|j: int| in_slot(cs, j, w)
}

/// A word stands in the concatenated pre-orders of slots `i` and above
/// exactly when it stands in the subtree of one such slot.
pub proof fn lemma_preorder_from_member(cs: Seq<Option<SpecTree>>, i: int, w: Seq<char>)
    requires
        0 <= i,
    ensures
        (exists|k: int|
            0 <= k < preorder_from(cs, i).len() && (#[trigger] preorder_from(cs, i)[k]).word == w)
            <==> (exists|j: int|
            i <= j < cs.len() && cs[j] is Some && in_tree(#[trigger] cs[j]->Some_0, w)),
    decreases cs.len() - i,
{
    if 0 <= i < cs.len() {
        lemma_preorder_from_member(cs, i + 1, w);
        let head = match cs[i] {
            None => Seq::<SpecTree>::empty(),
            Some(c) => c.preorder(),
        };
        let rest = preorder_from(cs, i + 1);
        assert(preorder_from(cs, i) == head + rest);
        if exists|k: int|
            0 <= k < preorder_from(cs, i).len() && (#[trigger] preorder_from(cs, i)[k]).word == w {
            let k = choose|k: int|
                0 <= k < preorder_from(cs, i).len() && (#[trigger] preorder_from(cs, i)[k]).word
                    == w;
            if k < head.len() {
                assert(cs[i]->Some_0.preorder()[k] == preorder_from(cs, i)[k]);
                assert(in_tree(cs[i]->Some_0, w));
            } else {
                assert(preorder_from(cs, i + 1)[k - head.len()] == preorder_from(cs, i)[k]);
            }
        }
        if exists|j: int| i <= j < cs.len() && cs[j] is Some && in_tree(#[trigger] cs[j]->Some_0, w) {
            let j = choose|j: int|
                i <= j < cs.len() && cs[j] is Some && in_tree(#[trigger] cs[j]->Some_0, w);
            if j == i {
                let k = choose|k: int|
                    0 <= k < cs[i]->Some_0.preorder().len() && (#[trigger] cs[i]
                        ->Some_0.preorder()[k]).word == w;
                assert(preorder_from(cs, i)[k] == cs[i]->Some_0.preorder()[k]);
            } else {
                assert(exists|k: int|
                    0 <= k < preorder_from(cs, i + 1).len() && (#[trigger] preorder_from(
                        cs,
                        i + 1,
                    )[k]).word == w);
                let k = choose|k: int|
                    0 <= k < preorder_from(cs, i + 1).len() && (#[trigger] preorder_from(
                        cs,
                        i + 1,
                    )[k]).word == w;
                assert(preorder_from(cs, i)[head.len() + k] == preorder_from(cs, i + 1)[k]);
            }
        }
    }
}

/// A word stands in a tree exactly when it is the root's word or stands in
/// one of the root's child slots.
pub proof fn lemma_in_tree_unfold(t: SpecTree, w: Seq<char>)
    ensures
        in_tree(t, w) <==> (t.word == w || in_forest(t.children, w)),
{
    lemma_preorder_from_member(t.children, 0, w);
    let rest = preorder_from(t.children, 0);
    assert(t.preorder() == seq![t] + rest);
    assert(t.preorder()[0] == t);
    if in_tree(t, w) && t.word != w {
        let k = choose|k: int|
            0 <= k < t.preorder().len() && (#[trigger] t.preorder()[k]).word == w;
        assert(preorder_from(t.children, 0)[k - 1] == t.preorder()[k]);
        let j = choose|j: int|
            0 <= j < t.children.len() && t.children[j] is Some && in_tree(
                #[trigger] t.children[j]->Some_0,
                w,
            );
        assert(in_slot(t.children, j, w));
    }
    if in_forest(t.children, w) {
        let j = choose|j: int| in_slot(t.children, j, w);
        assert(t.children[j] is Some && in_tree(t.children[j]->Some_0, w));
        let k = choose|k: int|
            0 <= k < preorder_from(t.children, 0).len() && (#[trigger] preorder_from(
                t.children,
                0,
            )[k]).word == w;
        assert(t.preorder()[k + 1] == preorder_from(t.children, 0)[k]);
    }
}

/// The number of nodes of a tree.
pub open spec fn spec_count(t: SpecTree) -> nat
    decreases t, 0int,
{
    1 + count_from(t.children, 0)
}

/// The number of nodes below the slots `i` and above.
pub open spec fn count_from(cs: Seq<Option<SpecTree>>, i: int) -> nat
    decreases cs, cs.len() - i,
{
    if i < 0 || i >= cs.len() {
        0
    } else {
        (match cs[i] {
            None => 0,
            Some(c) => spec_count(c),
        }) + count_from(cs, i + 1)
    }
}

/// A pre-order traversal has exactly one entry per node of the tree, and the
/// root's own entry comes first.
pub proof fn lemma_preorder_count(t: SpecTree)
    ensures
        t.preorder().len() == spec_count(t),
        t.preorder()[0] == t,
    decreases t, 0int,
{
    lemma_preorder_count_from(t.children, 0);
    assert(t.preorder() == seq![t] + preorder_from(t.children, 0));
}

/// As `lemma_preorder_count`, over the slots `i` and above.
proof fn lemma_preorder_count_from(cs: Seq<Option<SpecTree>>, i: int)
    ensures
        preorder_from(cs, i).len() == count_from(cs, i),
    decreases cs, cs.len() - i,
{
    if 0 <= i < cs.len() {
        lemma_preorder_count_from(cs, i + 1);
        if cs[i] is Some {
            lemma_preorder_count(cs[i]->Some_0);
        }
    }
}

/// Every word of a subtree lying at distance `d` from `from` is itself at
/// distance `d` from `from`, in both argument orders.
pub proof fn lemma_at_distance_words(t: SpecTree, from: Seq<char>, d: nat)
    requires
        t.at_distance(from, d),
    ensures
        forall|k: int|
            0 <= k < t.preorder().len() ==> lev(from, (#[trigger] t.preorder()[k]).word) == d && lev(
                t.preorder()[k].word,
                from,
            ) == d,
    decreases t, 0int,
{
    lemma_at_distance_words_from(t.children, 0, from, d);
    let rest = preorder_from(t.children, 0);
    assert(t.preorder() == seq![t] + rest);
    assert forall|k: int| 0 <= k < t.preorder().len() implies lev(
        from,
        (#[trigger] t.preorder()[k]).word,
    ) == d && lev(t.preorder()[k].word, from) == d by {
        if k > 0 {
            assert(t.preorder()[k] == rest[k - 1]);
        }
    }
}

/// As `lemma_at_distance_words`, over the slots `i` and above of a node whose
/// occupied slots all lie at distance `d` from `from`.
pub proof fn lemma_at_distance_words_from(
    cs: Seq<Option<SpecTree>>,
    i: int,
    from: Seq<char>,
    d: nat,
)
    requires
        forall|j: int|
            0 <= j < cs.len() && cs[j] is Some ==> (#[trigger] cs[j])->Some_0.at_distance(from, d),
    ensures
        forall|k: int|
            0 <= k < preorder_from(cs, i).len() ==> lev(
                from,
                (#[trigger] preorder_from(cs, i)[k]).word,
            ) == d && lev(preorder_from(cs, i)[k].word, from) == d,
    decreases cs, cs.len() - i,
{
    if 0 <= i < cs.len() {
        lemma_at_distance_words_from(cs, i + 1, from, d);
        let head = match cs[i] {
            None => Seq::<SpecTree>::empty(),
            Some(c) => c.preorder(),
        };
        let rest = preorder_from(cs, i + 1);
        if cs[i] is Some {
            lemma_at_distance_words(cs[i]->Some_0, from, d);
        }
        assert forall|k: int| 0 <= k < preorder_from(cs, i).len() implies lev(
            from,
            (#[trigger] preorder_from(cs, i)[k]).word,
        ) == d && lev(preorder_from(cs, i)[k].word, from) == d by {
            if k < head.len() {
                assert(preorder_from(cs, i)[k] == head[k]);
            } else {
                assert(preorder_from(cs, i)[k] == rest[k - head.len()]);
            }
        }
    }
}

/// A tree node: an owned word and `CHILDREN_LENGTH` child slots, slot `i`
/// holding the child whose word lies at edit distance `i` from this one.
#[derive(Debug)]
pub struct Node {
    pub word: String,
    pub children: Vec<Option<Box<Node>>>,
}

/// The views of the child slots `i` and above, in order.
pub open spec fn children_view(cs: Seq<Option<Box<Node>>>, i: int) -> Seq<Option<SpecTree>>
    decreases cs, cs.len() - i,
{
    if i < 0 || i >= cs.len() {
        Seq::empty()
    } else {
        seq![
            match cs[i] {
                None => None,
                Some(b) => Some((*b).spec_view()),
            },
        ] + children_view(cs, i + 1)
    }
}

impl Node {
    /// The abstract tree this node heads.
    pub open spec fn spec_view(self) -> SpecTree
        decreases self, 0int,
    {
        SpecTree { word: self.word@, children: children_view(self.children@, 0) }
    }
}

impl View for Node {
    type V = SpecTree;

    open spec fn view(&self) -> SpecTree {
        self.spec_view()
    }
}

/// `children_view` keeps the length of the slot sequence.
pub proof fn lemma_children_view_len(cs: Seq<Option<Box<Node>>>, i: int)
    requires
        0 <= i <= cs.len(),
    ensures
        children_view(cs, i).len() == cs.len() - i,
    decreases cs.len() - i,
{
    if i < cs.len() {
        lemma_children_view_len(cs, i + 1);
    }
}

/// `children_view` views each slot in place.
pub proof fn lemma_children_view_index(cs: Seq<Option<Box<Node>>>, i: int, j: int)
    requires
        0 <= i <= j < cs.len(),
    ensures
        children_view(cs, i)[j - i] == (match cs[j] {
            None => None::<SpecTree>,
            Some(b) => Some((*b).spec_view()),
        }),
    decreases j - i,
{
    lemma_children_view_len(cs, i + 1);
    if i < j {
        lemma_children_view_index(cs, i + 1, j);
    }
}

/// A tree that replaces one child slot by a subtree lying at the slot's
/// distance, and whose every word lies at distance `dd` from `from` wherever
/// the old tree and the new subtree do, is well formed and lies at distance
/// `dd` from `from` as well.
proof fn lemma_add_reconstruct(oldt: SpecTree, newt: SpecTree, d: int, sub: SpecTree, w: Seq<char>)
    requires
        oldt.wf(),
        0 <= d < oldt.children.len(),
        d == lev(oldt.word, w),
        d == lev(w, oldt.word),
        newt.word == oldt.word,
        newt.children == oldt.children.update(d, Some(sub)),
        sub.wf(),
        sub.at_distance(oldt.word, d as nat),
        forall|from: Seq<char>, dd: nat|
            (oldt.children[d] is Some ==> oldt.children[d]->Some_0.at_distance(from, dd)) && lev(
                from,
                w,
            ) == dd && lev(w, from) == dd ==> #[trigger] sub.at_distance(from, dd),
    ensures
        newt.wf(),
        forall|from: Seq<char>, dd: nat|
            oldt.at_distance(from, dd) && lev(from, w) == dd && lev(w, from) == dd
                ==> #[trigger] newt.at_distance(from, dd),
{
    assert forall|from: Seq<char>, dd: nat|
        oldt.at_distance(from, dd) && lev(from, w) == dd && lev(w, from) == dd implies #[trigger] newt.at_distance(
        from,
        dd,
    ) by {
        assert forall|j: int|
            0 <= j < newt.children.len() && newt.children[j] is Some implies (#[trigger] newt.children[j])->Some_0.at_distance(
            from,
            dd,
        ) by {
            if j == d {
                assert(oldt.children[d] is Some ==> oldt.children[d]->Some_0.at_distance(
                    from,
                    dd,
                ));
            } else {
                assert(oldt.children[j] is Some
                    ==> oldt.children[j]->Some_0.at_distance(from, dd));
            }
        }
    }
}

/// A leaf's single word at distance `dd` from `from` puts the whole (childless)
/// leaf tree at that distance.
proof fn lemma_leaf_at_distance(w: Seq<char>, from: Seq<char>, dd: nat)
    requires
        lev(from, w) == dd,
        lev(w, from) == dd,
    ensures
        spec_leaf(w).at_distance(from, dd),
{
}

/// Replacing one slot of a slot sequence changes its view at that slot alone.
proof fn lemma_children_view_update(cs1: Seq<Option<Box<Node>>>, cs2: Seq<Option<Box<Node>>>, d: int)
    requires
        0 <= d < cs1.len(),
        cs2 =~= cs1.update(d, cs2[d]),
    ensures
        children_view(cs2, 0) =~= children_view(cs1, 0).update(
            d,
            match cs2[d] {
                None => None,
                Some(b) => Some((*b).spec_view()),
            },
        ),
{
    lemma_children_view_len(cs1, 0);
    lemma_children_view_len(cs2, 0);
    assert forall|j: int| 0 <= j < cs2.len() implies children_view(cs2, 0)[j] == children_view(
        cs1,
        0,
    ).update(
        d,
        match cs2[d] {
            None => None,
            Some(b) => Some((*b).spec_view()),
        },
    )[j] by {
        lemma_children_view_index(cs1, 0, j);
        lemma_children_view_index(cs2, 0, j);
    }
}

impl Node {
    /// Insert `word` below this node: descend along the slot of the exact
    /// edit distance at each step, and fill the first empty slot met with a
    /// fresh leaf. Returns whether the word found room; a word whose distance
    /// to the node it reaches has no slot is rejected and the tree is left
    /// unchanged.
    pub fn add(&mut self, word: &str) -> (placed: bool)
        requires
            old(self)@.wf(),
        ensures
            final(self)@.wf(),
            final(self)@ == spec_add(old(self)@, word@),
            placed == spec_placed(old(self)@, word@),
            forall|from: Seq<char>, dd: nat|
                old(self)@.at_distance(from, dd) && lev(from, word@) == dd && lev(word@, from)
                    == dd ==> #[trigger] final(self)@.at_distance(from, dd),
        decreases *old(self),
    {
        proof {
            lemma_children_view_len(self.children@, 0);
        }
        let ghost oldt = self@;
        let d = edit_distance(self.word.as_str(), word);
        if d < CHILDREN_LENGTH {
            let ghost cs_old = self.children@;
            let slot = self.children.remove(d);
            proof {
                lemma_children_view_index(cs_old, 0, d as int);
            }
            match slot {
                None => {
                    let leaf = Node::new(word);
                    self.children.insert(d, Some(Box::new(leaf)));
                    proof {
                        assert(self.children@ =~= cs_old.update(d as int, self.children@[d as int]));
                        lemma_children_view_update(cs_old, self.children@, d as int);
                        assert(self@.children =~= oldt.children.update(
                            d as int,
                            Some(spec_leaf(word@)),
                        ));
                        assert(self@ == spec_add(oldt, word@));
                        lemma_leaf_at_distance(word@, oldt.word, d as nat);
                        assert forall|from: Seq<char>, dd: nat|
                            (oldt.children[d as int] is Some
                                ==> oldt.children[d as int]->Some_0.at_distance(from, dd)) && lev(
                                from,
                                word@,
                            ) == dd && lev(word@, from) == dd implies #[trigger] spec_leaf(
                            word@,
                        ).at_distance(from, dd) by {
                            lemma_leaf_at_distance(word@, from, dd);
                        }
                        lemma_add_reconstruct(oldt, self@, d as int, spec_leaf(word@), word@);
                    }
                    true
                }
                Some(mut child) => {
                    let ghost oldsub = child@;
                    proof {
                        assert(decreases_to!(*old(self) => *child));
                    }
                    let placed = (&mut *child).add(word);
                    let ghost newsub = child@;
                    self.children.insert(d, Some(child));
                    proof {
                        assert(self.children@ =~= cs_old.update(d as int, self.children@[d as int]));
                        lemma_children_view_update(cs_old, self.children@, d as int);
                        assert(oldt.children[d as int] == Some(oldsub));
                        assert(self@.children =~= oldt.children.update(d as int, Some(newsub)));
                        assert(self@ == spec_add(oldt, word@));
                        assert(oldsub.at_distance(oldt.word, d as nat));
                        lemma_add_reconstruct(oldt, self@, d as int, newsub, word@);
                    }
                    placed
                }
            }
        } else {
            false
        }
    }

    /// A fresh node for `word`, every child slot empty.
    pub fn new(word: &str) -> (n: Node)
        ensures
            n@ == spec_leaf(word@),
            n@.wf(),
    {
        let mut children: Vec<Option<Box<Node>>> = Vec::new();
        let mut i: usize = 0;
        while i < CHILDREN_LENGTH
            invariant
                i <= CHILDREN_LENGTH,
                children@.len() == i,
                forall|j: int| 0 <= j < i ==> children@[j] is None,
            decreases CHILDREN_LENGTH - i,
        {
            children.push(None);
            i += 1;
        }
        let n = Node { word: word.to_owned(), children };
        proof {
            lemma_children_view_len(n.children@, 0);
            assert forall|j: int| 0 <= j < n.children@.len() implies n@.children[j] is None by {
                lemma_children_view_index(n.children@, 0, j);
            }
            assert(n@.children =~= spec_leaf(word@).children);
        }
        n
    }
}

} // verus!
