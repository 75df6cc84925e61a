use vstd::prelude::*;

use crate::render::spec_as_string;
use crate::tree::{
    in_forest, in_slot, in_tree, lemma_in_tree_unfold, preorder_from, spec_add, spec_leaf,
    spec_placed, Node, SpecTree,
};

verus! {

/// The word every built tree is rooted at.
pub open spec fn root_word() -> Seq<char> {
    "the"@
}

/// The root word as a string slice.
pub fn root_word_str() -> (r: &'static str)
    ensures
        r@ == root_word(),
{
    "the"
}

/// Why a build was refused.
#[derive(Debug, Clone, Copy, PartialEq, Eq, Structural)]
pub enum BuildError {
    /// The designated root word did not occur in the word list.
    RootWordMissing,
}

/// The views of a list of owned words.
pub open spec fn views(ws: Seq<String>) -> Seq<Seq<char>> {
    ws.map_values(|s: String| s@)
}

/// The word list with every occurrence of `r` taken out, order kept.
pub open spec fn spec_remove_all(ws: Seq<Seq<char>>, r: Seq<char>) -> Seq<Seq<char>>
    decreases ws.len(),
{
    if ws.len() == 0 {
        Seq::empty()
    } else {
        let rest = spec_remove_all(ws.drop_last(), r);
        if ws.last() == r {
            rest
        } else {
            rest.push(ws.last())
        }
    }
}

/// The word list with later repetitions of a word taken out: each word keeps
/// its first occurrence only, order otherwise kept.
pub open spec fn spec_dedup(ws: Seq<Seq<char>>) -> Seq<Seq<char>>
    decreases ws.len(),
{
    if ws.len() == 0 {
        Seq::empty()
    } else {
        let rest = spec_dedup(ws.drop_last());
        if rest.contains(ws.last()) {
            rest
        } else {
            rest.push(ws.last())
        }
    }
}

/// What the builder feeds to insertion: the word list without the root word,
/// then without repetitions.
pub open spec fn spec_prepare(root: Seq<char>, ws: Seq<Seq<char>>) -> Seq<Seq<char>> {
    spec_dedup(spec_remove_all(ws, root))
}

/// Insert the words `i` and beyond of `ws` into `t` in order: the final tree,
/// and the words that found no room, in order.
pub open spec fn spec_build_from(t: SpecTree, ws: Seq<Seq<char>>, i: int) -> (SpecTree, Seq<
    Seq<char>,
>)
    decreases ws.len() - i,
{
    if i < 0 || i >= ws.len() {
        (t, Seq::empty())
    } else {
        let rest = spec_build_from(spec_add(t, ws[i]), ws, i + 1);
        (
            rest.0,
            if spec_placed(t, ws[i]) {
                rest.1
            } else {
                seq![ws[i]] + rest.1
            },
        )
    }
}

/// The tree built from a root word and a word list: the prepared list, in
/// order, inserted into a tree holding the root word alone.
pub open spec fn spec_build(root: Seq<char>, ws: Seq<Seq<char>>) -> (SpecTree, Seq<Seq<char>>) {
    spec_build_from(spec_leaf(root), spec_prepare(root, ws), 0)
}

/// Membership in a word list splits into its last entry and the rest.
proof fn lemma_contains_drop_last(ws: Seq<Seq<char>>, x: Seq<char>)
    requires
        ws.len() > 0,
    ensures
        ws.contains(x) <==> (ws.drop_last().contains(x) || ws.last() == x),
{
    if ws.contains(x) {
        let k = choose|k: int| 0 <= k < ws.len() && ws[k] == x;
        if k < ws.len() - 1 {
            assert(ws.drop_last()[k] == x);
        }
    }
    if ws.drop_last().contains(x) {
        let k = choose|k: int| 0 <= k < ws.drop_last().len() && ws.drop_last()[k] == x;
        assert(ws[k] == x);
    }
}

/// Taking the root word out keeps exactly the other words.
pub proof fn lemma_remove_all_contains(ws: Seq<Seq<char>>, r: Seq<char>, x: Seq<char>)
    ensures
        spec_remove_all(ws, r).contains(x) <==> (ws.contains(x) && x != r),
    decreases ws.len(),
{
    if ws.len() > 0 {
        lemma_remove_all_contains(ws.drop_last(), r, x);
        lemma_contains_drop_last(ws, x);
        let rest = spec_remove_all(ws.drop_last(), r);
        if ws.last() != r {
            lemma_contains_drop_last(rest.push(ws.last()), x);
            assert(rest.push(ws.last()).drop_last() =~= rest);
        }
    }
}

/// Taking repetitions out keeps exactly the words of the list.
pub proof fn lemma_dedup_contains(ws: Seq<Seq<char>>, x: Seq<char>)
    ensures
        spec_dedup(ws).contains(x) <==> ws.contains(x),
    decreases ws.len(),
{
    if ws.len() > 0 {
        lemma_dedup_contains(ws.drop_last(), x);
        lemma_contains_drop_last(ws, x);
        let rest = spec_dedup(ws.drop_last());
        if !rest.contains(ws.last()) {
            lemma_contains_drop_last(rest.push(ws.last()), x);
            assert(rest.push(ws.last()).drop_last() =~= rest);
        }
    }
}

/// A list without repetitions is left as it is by another round of dedup.
pub proof fn lemma_dedup_idempotent(ws: Seq<Seq<char>>)
    ensures
        spec_dedup(spec_dedup(ws)) == spec_dedup(ws),
    decreases ws.len(),
{
    if ws.len() > 0 {
        lemma_dedup_idempotent(ws.drop_last());
        let rest = spec_dedup(ws.drop_last());
        if !rest.contains(ws.last()) {
            assert(rest.push(ws.last()).drop_last() =~= rest);
            lemma_dedup_contains(rest, ws.last());
        }
    }
}

/// Taking the root word out and taking repetitions out can be done in either
/// order.
pub proof fn lemma_remove_dedup_commute(ws: Seq<Seq<char>>, r: Seq<char>)
    ensures
        spec_remove_all(spec_dedup(ws), r) == spec_dedup(spec_remove_all(ws, r)),
    decreases ws.len(),
{
    if ws.len() > 0 {
        lemma_remove_dedup_commute(ws.drop_last(), r);
        let x = ws.last();
        let dd = spec_dedup(ws.drop_last());
        let ra = spec_remove_all(ws.drop_last(), r);
        if x == r {
            if !dd.contains(x) {
                assert(dd.push(x).drop_last() =~= dd);
            }
        } else {
            lemma_dedup_contains(ws.drop_last(), x);
            lemma_remove_all_contains(ws.drop_last(), r, x);
            lemma_dedup_contains(ra, x);
            if !dd.contains(x) {
                assert(dd.push(x).drop_last() =~= dd);
                assert(ra.push(x).drop_last() =~= ra);
            } else {
                assert(ra.push(x).drop_last() =~= ra);
            }
        }
    }
}

/// A slot sequence of empty slots contributes no pre-order entries.
proof fn lemma_preorder_from_none(cs: Seq<Option<SpecTree>>, i: int)
    requires
        forall|j: int| 0 <= j < cs.len() ==> cs[j] is None,
    ensures
        preorder_from(cs, i) == Seq::<SpecTree>::empty(),
    decreases cs.len() - i,
{
    if 0 <= i < cs.len() {
        lemma_preorder_from_none(cs, i + 1);
        assert(preorder_from(cs, i) =~= Seq::<SpecTree>::empty());
    }
}

/// A fresh leaf holds its own word and nothing more.
pub proof fn lemma_leaf_words(w: Seq<char>, x: Seq<char>)
    ensures
        !in_forest(spec_leaf(w).children, x),
        in_tree(spec_leaf(w), x) ==> x == w,
{
    lemma_preorder_from_none(spec_leaf(w).children, 0);
    lemma_in_tree_unfold(spec_leaf(w), x);
    if in_forest(spec_leaf(w).children, x) {
        let j = choose|j: int| in_slot(spec_leaf(w).children, j, x);
        assert(spec_leaf(w).children[j] is None);
    }
}

/// Insertion adds no word below the root but the inserted one.
pub proof fn lemma_add_forest(t: SpecTree, w: Seq<char>, x: Seq<char>)
    ensures
        in_forest(spec_add(t, w).children, x) ==> in_forest(t.children, x) || x == w,
        in_tree(spec_add(t, w), x) ==> in_tree(t, x) || x == w,
    decreases t,
{
    let d = crate::distance::lev(t.word, w) as int;
    lemma_in_tree_unfold(t, x);
    lemma_in_tree_unfold(spec_add(t, w), x);
    if 0 <= d < t.children.len() && in_forest(spec_add(t, w).children, x) {
        let cs2 = spec_add(t, w).children;
        let j = choose|j: int| in_slot(cs2, j, x);
        if j != d {
            assert(in_slot(t.children, j, x));
        } else {
            match t.children[d] {
                None => {
                    lemma_leaf_words(w, x);
                },
                Some(c) => {
                    lemma_add_forest(c, w, x);
                    lemma_in_tree_unfold(c, x);
                    if in_tree(c, x) {
                        assert(in_slot(t.children, d, x));
                    }
                },
            }
        }
    }
}

/// Building adds no word below the root but those of the inserted list.
pub proof fn lemma_build_from_words(t: SpecTree, ws: Seq<Seq<char>>, i: int, x: Seq<char>)
    ensures
        in_forest(spec_build_from(t, ws, i).0.children, x) ==> in_forest(t.children, x) || exists|
            k: int,
        | i <= k < ws.len() && ws[k] == x,
    decreases ws.len() - i,
{
    if 0 <= i < ws.len() {
        lemma_build_from_words(spec_add(t, ws[i]), ws, i + 1, x);
        lemma_add_forest(t, ws[i], x);
        if in_forest(spec_build_from(t, ws, i).0.children, x) && !in_forest(t.children, x) {
            if x == ws[i] {
                assert(i <= i < ws.len() && ws[i] == x);
            } else {
                let k = choose|k: int| i + 1 <= k < ws.len() && ws[k] == x;
                assert(i <= k < ws.len() && ws[k] == x);
            }
        }
    }
}

/// Root exclusion: whatever word list a tree is built from, no node below the
/// root holds the root word; the root word occurs at the root alone.
pub proof fn lemma_root_exclusion(root: Seq<char>, ws: Seq<Seq<char>>)
    ensures
        !in_forest(spec_build(root, ws).0.children, root),
{
    if in_forest(spec_build(root, ws).0.children, root) {
        let prepared = spec_prepare(root, ws);
        lemma_build_from_words(spec_leaf(root), prepared, 0, root);
        lemma_leaf_words(root, root);
        if exists|k: int| 0 <= k < prepared.len() && prepared[k] == root {
            assert(prepared.contains(root));
            lemma_dedup_contains(spec_remove_all(ws, root), root);
            lemma_remove_all_contains(ws, root, root);
        }
        assert(false);
    }
}

/// Dedup: a word list with repetitions builds the very tree (and rejection
/// report) that the deduplicated list builds.
pub proof fn lemma_dedup_same_build(root: Seq<char>, ws: Seq<Seq<char>>)
    ensures
        spec_build(root, ws) == spec_build(root, spec_dedup(ws)),
{
    lemma_remove_dedup_commute(ws, root);
    lemma_dedup_idempotent(spec_remove_all(ws, root));
}

/// Whether `v` holds a word reading `w`.
fn contains_string(v: &Vec<String>, w: &String) -> (b: bool)
    ensures
        b == views(v@).contains(w@),
{
    let mut i: usize = 0;
    while i < v.len()
        invariant
            i <= v@.len(),
            forall|k: int| 0 <= k < i ==> views(v@)[k] != w@,
        decreases v@.len() - i,
    {
        if v[i].eq(w) {
            proof {
                assert(views(v@)[i as int] == w@);
            }
            return true;
        }
        i += 1;
    }
    false
}

/// Build the tree for a word list: take the root word out of the list, take
/// out repetitions, then insert what remains in list order under a root node
/// holding the root word. Returns the tree and the words that found no room
/// (reported, not inserted), or an error when the root word does not occur in
/// the list.
pub fn build_tree(root: &str, word_list: &Vec<String>) -> (r: Result<
    (Node, Vec<String>),
    BuildError,
>)
    ensures
        r is Ok <==> views(word_list@).contains(root@),
        r is Err ==> r->Err_0 == BuildError::RootWordMissing,
        r is Ok ==> {
            let built = spec_build(root@, views(word_list@));
            &&& r->Ok_0.0@ == built.0
            &&& r->Ok_0.0@.wf()
            &&& r->Ok_0.0@.word == root@
            &&& views(r->Ok_0.1@) == built.1
        },
{
    let root_string = root.to_owned();
    if !contains_string(word_list, &root_string) {
        return Err(BuildError::RootWordMissing);
    }
    // Take out every occurrence of the root word.
    let mut kept: Vec<String> = Vec::new();
    let mut i: usize = 0;
    while i < word_list.len()
        invariant
            i <= word_list@.len(),
            root_string@ == root@,
            views(kept@) == spec_remove_all(views(word_list@).take(i as int), root@),
        decreases word_list@.len() - i,
    {
        let w = &word_list[i];
        let ghost prefix = views(word_list@).take(i as int);
        proof {
            assert(views(word_list@).take(i + 1) == prefix.push(w@));
            assert(views(word_list@).take(i + 1).drop_last() =~= prefix);
        }
        if !w.eq(&root_string) {
            kept.push(w.clone());
            proof {
                assert(views(kept@) =~= spec_remove_all(views(word_list@).take(i + 1), root@));
            }
        }
        i += 1;
    }
    proof {
        assert(views(word_list@).take(word_list@.len() as int) =~= views(word_list@));
    }
    // Keep each word's first occurrence only.
    let mut unique: Vec<String> = Vec::new();
    let mut j: usize = 0;
    while j < kept.len()
        invariant
            j <= kept@.len(),
            views(unique@) == spec_dedup(views(kept@).take(j as int)),
        decreases kept@.len() - j,
    {
        let w = &kept[j];
        let ghost prefix = views(kept@).take(j as int);
        proof {
            assert(views(kept@).take(j + 1) == prefix.push(w@));
            assert(views(kept@).take(j + 1).drop_last() =~= prefix);
        }
        if !contains_string(&unique, w) {
            unique.push(w.clone());
            proof {
                assert(views(unique@) =~= spec_dedup(views(kept@).take(j + 1)));
            }
        }
        j += 1;
    }
    proof {
        assert(views(kept@).take(kept@.len() as int) =~= views(kept@));
    }
    let ghost prepared = spec_prepare(root@, views(word_list@));
    proof {
        assert(prepared == views(unique@));
    }
    // Insert what remains, in list order.
    let mut tree = Node::new(root);
    let mut rejected: Vec<String> = Vec::new();
    let mut k: usize = 0;
    while k < unique.len()
        invariant
            k <= unique@.len(),
            prepared == views(unique@),
            tree@.wf(),
            tree@.word == root@,
            spec_build_from(spec_leaf(root@), prepared, 0).0 == spec_build_from(
                tree@,
                prepared,
                k as int,
            ).0,
            spec_build_from(spec_leaf(root@), prepared, 0).1 == views(rejected@)
                + spec_build_from(tree@, prepared, k as int).1,
        decreases unique@.len() - k,
    {
        let w = &unique[k];
        let ghost t0 = tree@;
        let placed = tree.add(w.as_str());
        if !placed {
            rejected.push(w.clone());
        }
        proof {
            assert(spec_build_from(t0, prepared, k as int).0 == spec_build_from(
                tree@,
                prepared,
                k as int + 1,
            ).0);
            if placed {
                assert(spec_build_from(t0, prepared, k as int).1 == spec_build_from(
                    tree@,
                    prepared,
                    k as int + 1,
                ).1);
            } else {
                assert(spec_build_from(t0, prepared, k as int).1 == seq![prepared[k as int]]
                    + spec_build_from(tree@, prepared, k as int + 1).1);
            }
            assert(spec_build_from(spec_leaf(root@), prepared, 0).1 == views(rejected@)
                + spec_build_from(tree@, prepared, k as int + 1).1);
        }
        k += 1;
    }
    proof {
        assert(spec_build_from(tree@, prepared, unique@.len() as int).1
            == Seq::<Seq<char>>::empty());
        assert(spec_build(root@, views(word_list@)).1 =~= views(rejected@));
    }
    Ok((tree, rejected))
}

/// Build the embeddable artifact for a word list: the tree rooted at the
/// designated root word, rendered as text, along with the words that found no
/// room and are reported back rather than silently dropped. Fails when the
/// root word does not occur in the list.
pub fn build_bktree(word_list: &Vec<String>) -> (r: Result<(String, Vec<String>), BuildError>)
    ensures
        r is Ok <==> views(word_list@).contains(root_word()),
        r is Err ==> r->Err_0 == BuildError::RootWordMissing,
        r is Ok ==> {
            let built = spec_build(root_word(), views(word_list@));
            &&& r->Ok_0.0@ == spec_as_string(built.0)
            &&& views(r->Ok_0.1@) == built.1
        },
{
    let root = root_word_str();
    match build_tree(root, word_list) {
        Ok((tree, rejected)) => {
            let text = tree.as_string();
            Ok((text, rejected))
        },
        Err(e) => Err(e),
    }
}

} // verus!
