//! Mathematical model of the tree builder.
//!
//! [`build_rec`] states what one recursion frame of the builder produces
//! from a stream of tokens: the nodes created at one nesting level and
//! below, and how many tokens the frame consumed. The well-formedness
//! lemmas then show that every collection the builder emits forms a
//! valid forest: ids assigned in order from 1, parents created before
//! their children, and levels growing by one per nesting step.

use crate::element::{elem_model, ElemModel, Element, ElementType};
use crate::text::{first_space_idx, unescape_spaces_from};
use vstd::prelude::*;

verus! {

/// The models of the elements of `s`, in order.
pub open spec fn elems_view(s: Seq<Element>) -> Seq<ElemModel> {
    Seq::new(s.len(), |i: int| s[i]@)
}

/// The node a bracket-group token creates: as [`elem_model`], but marked
/// a branch.
pub open spec fn branch_model(id: int, raw: Seq<char>, parent: int, level: int) -> ElemModel {
    let m = elem_model(id, raw, parent, level);
    ElemModel {
        id: m.id,
        content: m.content,
        parent: m.parent,
        level: m.level,
        triangle: m.triangle,
        element_type: ElementType::Branch,
        width: m.width,
        indent: m.indent,
    }
}

/// A standalone closing bracket, the token that unwinds one nesting
/// level.
pub open spec fn is_close_tok(t: Seq<char>) -> bool {
    t.len() == 1 && t[0] == ']'
}

/// `u` clamped into `[0, max]`; the builder model uses it to keep its
/// recursion well-founded, and [`lemma_build_used`] shows it never
/// actually clips anything.
pub open spec fn clip_used(u: int, max: int) -> int {
    if u < 0 {
        0
    } else if u > max {
        max
    } else {
        u
    }
}

/// One frame of the recursive-descent builder, fed the remaining token
/// stream: the nodes it appends and the count of tokens it consumes.
///
/// The frame reads sibling tokens under `parent` at depth `level`,
/// handing out ids from `id` on, until a closing bracket or an empty
/// token ends it. A bracket-group token with a space past its label
/// creates the branch and an immediate leaf child (both with the `<>`
/// placeholder resolved), one without creates the branch alone; either
/// way a child frame then consumes the group's own children. A bare
/// token creates one leaf.
pub open spec fn build_rec(toks: Seq<Seq<char>>, id: int, level: int, parent: int) -> (
    Seq<ElemModel>,
    int,
)
    decreases toks.len(),
{
    if toks.len() == 0 {
        (Seq::empty(), 0)
    } else {
        let t = toks[0];
        if t.len() == 0 || is_close_tok(t) {
            (Seq::empty(), 1)
        } else if t[0] == '[' {
            let rest = t.skip(1);
            let sp = first_space_idx(rest, 0);
            if sp != 0 {
                let label = unescape_spaces_from(rest.subrange(0, sp), 0);
                let child_txt = unescape_spaces_from(rest.subrange(sp, rest.len() as int), 0);
                let branch = branch_model(id, label, parent, level);
                let leaf = elem_model(id + 1, child_txt, id, level + 1);
                let child = build_rec(toks.skip(1), id + 2, level + 1, id);
                let cu = clip_used(child.1, toks.len() - 1);
                let sib = build_rec(toks.skip(1 + cu), id + 2 + child.0.len(), level, parent);
                (seq![branch, leaf] + child.0 + sib.0, 1 + cu + sib.1)
            } else {
                let branch = branch_model(id, rest, parent, level);
                let child = build_rec(toks.skip(1), id + 1, level + 1, id);
                let cu = clip_used(child.1, toks.len() - 1);
                let sib = build_rec(toks.skip(1 + cu), id + 1 + child.0.len(), level, parent);
                (seq![branch] + child.0 + sib.0, 1 + cu + sib.1)
            }
        } else {
            let leaf = elem_model(id, t, parent, level);
            let sib = build_rec(toks.skip(1), id + 1, level, parent);
            (seq![leaf] + sib.0, 1 + sib.1)
        }
    }
}

/// A frame consumes between zero and all of its tokens, so the clamp in
/// [`build_rec`] never alters the count.
pub proof fn lemma_build_used(toks: Seq<Seq<char>>, id: int, level: int, parent: int)
    ensures
        0 <= build_rec(toks, id, level, parent).1 <= toks.len(),
    decreases toks.len(),
{
    if toks.len() > 0 {
        let t = toks[0];
        if t.len() == 0 || is_close_tok(t) {
        } else if t[0] == '[' {
            let rest = t.skip(1);
            let sp = first_space_idx(rest, 0);
            if sp != 0 {
                let child = build_rec(toks.skip(1), id + 2, level + 1, id);
                lemma_build_used(toks.skip(1), id + 2, level + 1, id);
                let cu = clip_used(child.1, toks.len() - 1);
                lemma_build_used(toks.skip(1 + cu), id + 2 + child.0.len(), level, parent);
            } else {
                let child = build_rec(toks.skip(1), id + 1, level + 1, id);
                lemma_build_used(toks.skip(1), id + 1, level + 1, id);
                let cu = clip_used(child.1, toks.len() - 1);
                lemma_build_used(toks.skip(1 + cu), id + 1 + child.0.len(), level, parent);
            }
        } else {
            lemma_build_used(toks.skip(1), id + 1, level, parent);
        }
    }
}

/// What a frame guarantees of the nodes it appends: ids run from `id`
/// upward in creation order, and every node either hangs directly under
/// the frame's parent at the frame's level, or under an earlier node of
/// the same frame's output, one level below it.
pub open spec fn frame_ok(elems: Seq<ElemModel>, id: int, level: int, parent: int) -> bool {
    forall|k: int|
        0 <= k < elems.len() ==> {
            &&& (#[trigger] elems[k]).id == id + k
            &&& ((elems[k].parent == parent && elems[k].level == level) || (id <= elems[k].parent
                < id + k && elems[k].level == elems[elems[k].parent - id].level + 1))
        }
}

/// A frame made of a lead-in of one or two nodes, a child frame and a
/// sibling frame is itself well-formed.
proof fn lemma_frame_cat(
    lead: Seq<ElemModel>,
    ce: Seq<ElemModel>,
    se: Seq<ElemModel>,
    id: int,
    level: int,
    parent: int,
)
    requires
        1 <= lead.len() <= 2,
        lead[0].id == id && lead[0].parent == parent && lead[0].level == level,
        lead.len() == 2 ==> lead[1].id == id + 1 && lead[1].parent == id && lead[1].level == level
            + 1,
        frame_ok(ce, id + lead.len(), level + 1, id),
        frame_ok(se, id + lead.len() + ce.len(), level, parent),
    ensures
        frame_ok(lead + ce + se, id, level, parent),
{
    let ln = lead.len() as int;
    let cn = ce.len() as int;
    let elems = lead + ce + se;
    assert forall|k: int| 0 <= k < elems.len() implies {
        &&& (#[trigger] elems[k]).id == id + k
        &&& ((elems[k].parent == parent && elems[k].level == level) || (id <= elems[k].parent < id
            + k && elems[k].level == elems[elems[k].parent - id].level + 1))
    } by {
        if k < ln {
            assert(elems[k] == lead[k]);
            assert(elems[0] == lead[0]);
        } else if k < ln + cn {
            assert(elems[k] == ce[k - ln]);
            assert(elems[0] == lead[0]);
            if !(ce[k - ln].parent == id && ce[k - ln].level == level + 1) {
                let p = ce[k - ln].parent;
                assert(id + ln <= p < id + k);
                assert(elems[p - id] == ce[p - id - ln]);
            }
        } else {
            assert(elems[k] == se[k - ln - cn]);
            assert(elems[0] == lead[0]);
            if !(se[k - ln - cn].parent == parent && se[k - ln - cn].level == level) {
                let p = se[k - ln - cn].parent;
                assert(id + ln + cn <= p < id + k);
                assert(elems[p - id] == se[p - id - ln - cn]);
            }
        }
    }
}

/// A frame made of one leaf followed by the rest of the frame is itself
/// well-formed.
proof fn lemma_frame_leaf(leaf: ElemModel, se: Seq<ElemModel>, id: int, level: int, parent: int)
    requires
        leaf.id == id && leaf.parent == parent && leaf.level == level,
        frame_ok(se, id + 1, level, parent),
    ensures
        frame_ok(seq![leaf] + se, id, level, parent),
{
    let elems = seq![leaf] + se;
    assert forall|k: int| 0 <= k < elems.len() implies {
        &&& (#[trigger] elems[k]).id == id + k
        &&& ((elems[k].parent == parent && elems[k].level == level) || (id <= elems[k].parent < id
            + k && elems[k].level == elems[elems[k].parent - id].level + 1))
    } by {
        if k == 0 {
            assert(elems[0] == leaf);
        } else {
            assert(elems[k] == se[k - 1]);
            if !(se[k - 1].parent == parent && se[k - 1].level == level) {
                let p = se[k - 1].parent;
                assert(elems[p - id] == se[p - id - 1]);
            }
        }
    }
}

/// Every frame's output is well-formed in the sense of [`frame_ok`].
#[verifier::rlimit(100)]
#[verifier::spinoff_prover]
pub proof fn lemma_build_wf(toks: Seq<Seq<char>>, id: int, level: int, parent: int)
    ensures
        frame_ok(build_rec(toks, id, level, parent).0, id, level, parent),
    decreases toks.len(),
{
    if toks.len() == 0 {
    } else {
        let t = toks[0];
        if t.len() == 0 || is_close_tok(t) {
        } else if t[0] == '[' {
            let rest = t.skip(1);
            let sp = first_space_idx(rest, 0);
            if sp != 0 {
                let label = unescape_spaces_from(rest.subrange(0, sp), 0);
                let child_txt = unescape_spaces_from(rest.subrange(sp, rest.len() as int), 0);
                let branch = branch_model(id, label, parent, level);
                let leaf = elem_model(id + 1, child_txt, id, level + 1);
                let child = build_rec(toks.skip(1), id + 2, level + 1, id);
                let cu = clip_used(child.1, toks.len() - 1);
                let sib = build_rec(toks.skip(1 + cu), id + 2 + child.0.len(), level, parent);
                lemma_build_wf(toks.skip(1), id + 2, level + 1, id);
                lemma_build_wf(toks.skip(1 + cu), id + 2 + child.0.len(), level, parent);
                lemma_frame_cat(seq![branch, leaf], child.0, sib.0, id, level, parent);
                assert(seq![branch, leaf] + child.0 + sib.0 == build_rec(
                    toks,
                    id,
                    level,
                    parent,
                ).0);
            } else {
                let branch = branch_model(id, rest, parent, level);
                let child = build_rec(toks.skip(1), id + 1, level + 1, id);
                let cu = clip_used(child.1, toks.len() - 1);
                let sib = build_rec(toks.skip(1 + cu), id + 1 + child.0.len(), level, parent);
                lemma_build_wf(toks.skip(1), id + 1, level + 1, id);
                lemma_build_wf(toks.skip(1 + cu), id + 1 + child.0.len(), level, parent);
                lemma_frame_cat(seq![branch], child.0, sib.0, id, level, parent);
                assert(seq![branch] + child.0 + sib.0 == build_rec(toks, id, level, parent).0);
            }
        } else {
            let leaf = elem_model(id, t, parent, level);
            let sib = build_rec(toks.skip(1), id + 1, level, parent);
            lemma_build_wf(toks.skip(1), id + 1, level, parent);
            lemma_frame_leaf(leaf, sib.0, id, level, parent);
            assert(seq![leaf] + sib.0 == build_rec(toks, id, level, parent).0);
        }
    }
}

/// Well-formedness of a full parse result: ids run 1, 2, 3, ... in
/// creation order; every parent reference points at an earlier node or
/// at the unmaterialized root 0; nodes under the root sit at level 0 and
/// every other node sits one level below its parent.
pub open spec fn wf_elements(s: Seq<ElemModel>) -> bool {
    forall|k: int|
        0 <= k < s.len() ==> {
            &&& (#[trigger] s[k]).id == k + 1
            &&& 0 <= s[k].parent <= k
            &&& (s[k].parent == 0 ==> s[k].level == 0)
            &&& (s[k].parent != 0 ==> s[k].level == s[s[k].parent - 1].level + 1)
        }
}

/// A root frame's output is well-formed as a full parse result.
pub proof fn lemma_root_frame_wf(elems: Seq<ElemModel>)
    requires
        frame_ok(elems, 1, 0, 0),
    ensures
        wf_elements(elems),
{
    assert forall|k: int| 0 <= k < elems.len() implies {
        &&& (#[trigger] elems[k]).id == k + 1
        &&& 0 <= elems[k].parent <= k
        &&& (elems[k].parent == 0 ==> elems[k].level == 0)
        &&& (elems[k].parent != 0 ==> elems[k].level == elems[elems[k].parent - 1].level + 1)
    } by {
        assert(elems[k].id == 1 + k);
    }
}

/// What a fresh parse emits is well-formed: ids run 1, 2, 3, ... in
/// creation order, parents are created before their children, and
/// levels grow by one per nesting step.
pub proof fn lemma_parse_output_wf(toks: Seq<Seq<char>>)
    ensures
        wf_elements(build_rec(toks, 1, 0, 0).0),
{
    lemma_build_wf(toks, 1, 0, 0);
    lemma_root_frame_wf(build_rec(toks, 1, 0, 0).0);
}

/// No forward references: every non-zero parent value in a well-formed
/// collection is the id of a strictly earlier node.
pub proof fn lemma_parent_appears_earlier(s: Seq<ElemModel>, k: int)
    requires
        wf_elements(s),
        0 <= k < s.len(),
        s[k].parent != 0,
    ensures
        exists|j: int| 0 <= j < k && (#[trigger] s[j]).id == s[k].parent,
{
    assert(s[s[k].parent - 1].id == s[k].parent);
}

/// Levels step by one: in a well-formed collection, each node whose
/// parent is materialized sits exactly one level below it, and each node
/// hanging off the unmaterialized root sits at level 0.
pub proof fn lemma_level_of_parent(s: Seq<ElemModel>, k: int, j: int)
    requires
        wf_elements(s),
        0 <= k < s.len(),
        0 <= j < s.len(),
        s[k].parent != 0,
        s[j].id == s[k].parent,
    ensures
        s[k].level == s[j].level + 1,
{
    assert(s[j].id == j + 1);
}

} // verus!
