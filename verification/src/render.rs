use vstd::prelude::*;

use vstd::string::StringExecFns;

use crate::builder::root_word;
use crate::tree::{lemma_children_view_index, lemma_children_view_len, Node, SpecTree};

verus! {

/// The textual form of one subtree: a node literal holding its word and its
/// slot array, each slot `None` or `Some(&...)` of the child's literal.
pub open spec fn spec_render(t: SpecTree) -> Seq<char>
    decreases t, 0int,
{
    "Node { word: \""@ + t.word + "\", children: ["@ + spec_render_from(t.children, 0) + "] }"@
}

/// The textual forms of the slots `i` and above, separated by ", ".
pub open spec fn spec_render_from(cs: Seq<Option<SpecTree>>, i: int) -> Seq<char>
    decreases cs, cs.len() - i,
{
    if i < 0 || i >= cs.len() {
        Seq::empty()
    } else {
        (match cs[i] {
            None => "None"@,
            Some(c) => "Some(&"@ + spec_render(c) + ")"@,
        }) + (if i + 1 < cs.len() {
            ", "@
        } else {
            Seq::<char>::empty()
        }) + spec_render_from(cs, i + 1)
    }
}

/// The full embeddable artifact: a static literal of the whole tree.
pub open spec fn spec_as_string(t: SpecTree) -> Seq<char> {
    "static TREE: Node = "@ + spec_render(t) + ";"@
}

/// Identical ordered input renders an identical artifact: the built tree and
/// its text are functions of the root word and the word list alone.
pub proof fn lemma_build_deterministic(root: Seq<char>, ws1: Seq<Seq<char>>, ws2: Seq<Seq<char>>)
    requires
        ws1 == ws2,
    ensures
        spec_as_string(crate::builder::spec_build(root, ws1).0) == spec_as_string(
            crate::builder::spec_build(root, ws2).0,
        ),
        crate::builder::spec_build(root, ws1) == crate::builder::spec_build(root, ws2),
{
}

impl Node {
    /// Append this subtree's literal to `out`.
    fn render_into(&self, out: &mut String)
        ensures
            final(out)@ == old(out)@ + spec_render(self@),
        decreases *self,
    {
        out.append("Node { word: \"");
        out.append(self.word.as_str());
        out.append("\", children: [");
        let ghost cv = self@.children;
        proof {
            lemma_children_view_len(self.children@, 0);
        }
        let n = self.children.len();
        let mut i: usize = 0;
        proof {
            assert(out@ + spec_render_from(cv, 0) + "] }"@ =~= old(out)@ + spec_render(self@));
        }
        while i < n
            invariant
                i <= n,
                n == self.children@.len(),
                n == cv.len(),
                cv == self@.children,
                out@ + spec_render_from(cv, i as int) + "] }"@ == old(out)@ + spec_render(self@),
            decreases n - i,
        {
            let ghost pre = out@;
            proof {
                lemma_children_view_index(self.children@, 0, i as int);
            }
            match &self.children[i] {
                None => {
                    out.append("None");
                },
                Some(b) => {
                    let c: &Node = &**b;
                    proof {
                        assert(cv[i as int] == Some(c@));
                    }
                    out.append("Some(&");
                    c.render_into(out);
                    out.append(")");
                },
            }
            if i + 1 < n {
                out.append(", ");
            }
            proof {
                assert(out@ + spec_render_from(cv, i as int + 1) + "] }"@ =~= pre
                    + spec_render_from(cv, i as int) + "] }"@);
            }
            i += 1;
        }
        out.append("] }");
        proof {
            assert(spec_render_from(cv, n as int) == Seq::<char>::empty());
            assert(out@ =~= old(out)@ + spec_render(self@));
        }
    }

    /// The embeddable artifact for the tree headed by this node: a static
    /// literal of the whole tree, as text. Meant for the root node of a built
    /// tree, whose word is the designated root word.
    pub fn as_string(&self) -> (r: String)
        requires
            self@.word == root_word(),
        ensures
            r@ == spec_as_string(self@),
    {
        let mut out = String::new();
        out.append("static TREE: Node = ");
        self.render_into(&mut out);
        out.append(";");
        proof {
            assert(out@ =~= spec_as_string(self@));
        }
        out
    }
}

} // verus!
