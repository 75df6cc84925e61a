use vstd::prelude::*;

use crate::distance::{edit_distance, lev};
use crate::tree::{
    in_forest, in_slot, in_tree, lemma_at_distance_words, lemma_children_view_index,
    lemma_children_view_len, lemma_in_tree_unfold, Node,
};

verus! {

/// Whether some entry of the returned candidate list reads `w`.
pub open spec fn result_has<'a>(r: Seq<&'a str>, w: Seq<char>) -> bool {
    exists|k: int| 0 <= k < r.len() && (#[trigger] r[k])@ == w
}

impl Node {
    /// Candidate matches for `word` within `tolerance`: walk the tree from
    /// this node, and under each visited node keep every child slot whose
    /// index falls within `tolerance` of the node's distance to `word`,
    /// collecting the visited children's words. By the triangle inequality
    /// the pruned slots cannot hold a word within `tolerance` of `word`, so
    /// the result never misses a true match among this node's descendants; it
    /// may hold words farther away than `tolerance` (callers needing an exact
    /// cut re-check the distance). The query word itself, wherever it stands
    /// below this node, is always among the candidates.
    pub fn canidates<'a>(&'a self, word: &str, tolerance: u8) -> (r: Vec<&'a str>)
        requires
            self@.wf(),
        ensures
            forall|w: Seq<char>|
                #[trigger] in_forest(self@.children, w) && lev(word@, w) <= tolerance
                    ==> result_has(r@, w),
            in_forest(self@.children, word@) ==> result_has(r@, word@),
            forall|k: int| 0 <= k < r@.len() ==> in_forest(self@.children, (#[trigger] r@[k])@),
        decreases *self,
    {
        proof {
            lemma_children_view_len(self.children@, 0);
        }
        let ghost cs = self@.children;
        let mut result: Vec<&'a str> = Vec::new();
        let d = edit_distance(self.word.as_str(), word);
        let tol = tolerance as usize;
        let n = self.children.len();
        let mut i: usize = 0;
        while i < n
            invariant
                self@.wf(),
                cs == self@.children,
                n == self.children@.len(),
                n == cs.len(),
                i <= n,
                d == lev(self@.word, word@),
                d == lev(word@, self@.word),
                tol == tolerance as usize,
                forall|z: Seq<char>| #[trigger] lev(self@.word, z) <= d + lev(word@, z),
                forall|z: Seq<char>| d <= lev(word@, z) + #[trigger] lev(z, self@.word),
                forall|w: Seq<char>, j: int|
                    0 <= j < i && #[trigger] in_slot(cs, j, w) && lev(word@, w) <= tolerance
                        ==> result_has(result@, w),
                forall|j: int|
                    0 <= j < i && #[trigger] in_slot(cs, j, word@) ==> result_has(result@, word@),
                forall|k: int|
                    0 <= k < result@.len() ==> in_forest(cs, (#[trigger] result@[k])@),
            decreases n - i,
        {
            let ghost prev = result@;
            let in_window = if d >= i {
                d - i <= tol
            } else {
                i - d <= tol
            };
            proof {
                lemma_children_view_index(self.children@, 0, i as int);
            }
            if in_window {
                match &self.children[i] {
                    Some(b) => {
                        let c: &Node = &**b;
                        proof {
                            assert(cs[i as int] == Some(c@));
                        }
                        result.push(c.word.as_str());
                        let ghost mid = result@;
                        let mut sub = c.canidates(word, tolerance);
                        let ghost subv = sub@;
                        result.append(&mut sub);
                        proof {
                            assert(result@ == mid + subv);
                            assert(mid[prev.len() as int]@ == c@.word);
                            assert forall|w: Seq<char>, j: int|
                                0 <= j < i + 1 && #[trigger] in_slot(cs, j, w) && lev(word@, w)
                                    <= tolerance implies result_has(result@, w) by {
                                if j == i {
                                    lemma_in_tree_unfold(c@, w);
                                    if w == c@.word {
                                        assert(result@[prev.len() as int]@ == w);
                                    } else {
                                        assert(in_forest(c@.children, w));
                                        let k = choose|k: int|
                                            0 <= k < subv.len() && (#[trigger] subv[k])@ == w;
                                        assert(result@[prev.len() as int + 1 + k]@ == w);
                                    }
                                } else {
                                    let k = choose|k: int|
                                        0 <= k < prev.len() && (#[trigger] prev[k])@ == w;
                                    assert(result@[k]@ == w);
                                }
                            }
                            assert forall|j: int|
                                0 <= j < i + 1 && #[trigger] in_slot(cs, j, word@) implies result_has(
                                result@,
                                word@,
                            ) by {
                                if j == i {
                                    lemma_in_tree_unfold(c@, word@);
                                    if word@ == c@.word {
                                        assert(result@[prev.len() as int]@ == word@);
                                    } else {
                                        assert(in_forest(c@.children, word@));
                                        let k = choose|k: int|
                                            0 <= k < subv.len() && (#[trigger] subv[k])@ == word@;
                                        assert(result@[prev.len() as int + 1 + k]@ == word@);
                                    }
                                } else {
                                    let k = choose|k: int|
                                        0 <= k < prev.len() && (#[trigger] prev[k])@ == word@;
                                    assert(result@[k]@ == word@);
                                }
                            }
                            assert forall|k: int| 0 <= k < result@.len() implies in_forest(
                                cs,
                                (#[trigger] result@[k])@,
                            ) by {
                                if k < prev.len() {
                                    assert(result@[k] == prev[k]);
                                } else {
                                    lemma_in_tree_unfold(c@, result@[k]@);
                                    if k == prev.len() {
                                        assert(in_tree(c@, result@[k]@));
                                    } else {
                                        assert(result@[k] == subv[k - prev.len() as int - 1]);
                                        assert(in_forest(c@.children, result@[k]@));
                                        assert(in_tree(c@, result@[k]@));
                                    }
                                    assert(in_slot(cs, i as int, result@[k]@));
                                }
                            }
                        }
                    },
                    None => {
                        proof {
                            assert(cs[i as int] is None);
                        }
                    },
                }
            } else {
                proof {
                    assert forall|w: Seq<char>|
                        #[trigger] in_slot(cs, i as int, w) implies !(lev(word@, w) <= tolerance)
                        && w != word@ by {
                        let c = cs[i as int]->Some_0;
                        assert(c.at_distance(self@.word, i as nat));
                        lemma_at_distance_words(c, self@.word, i as nat);
                        let k = choose|k: int|
                            0 <= k < c.preorder().len() && (#[trigger] c.preorder()[k]).word == w;
                        assert(lev(self@.word, w) == i && lev(w, self@.word) == i);
                    }
                }
            }
            i += 1;
        }
        proof {
            assert forall|w: Seq<char>|
                #[trigger] in_forest(cs, w) && lev(word@, w) <= tolerance implies result_has(
                result@,
                w,
            ) by {
                let j = choose|j: int| in_slot(cs, j, w);
                assert(in_slot(cs, j, w));
            }
            if in_forest(cs, word@) {
                let j = choose|j: int| in_slot(cs, j, word@);
                assert(in_slot(cs, j, word@));
            }
        }
        result
    }
}

} // verus!
