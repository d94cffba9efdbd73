//! Mathematical model of the label post-processor, and the idempotence
//! proof for it.
//!
//! The pass walks the collection once. For each branch node it counts
//! the earlier branch nodes carrying the same label: the first
//! occurrence stays untouched, and the k-th repeat gains the subscript
//! `_k`, counted from 1. Leaf nodes are never rewritten.

use crate::element::ElemModel;
use crate::text::{dec_of, lemma_dec_injective, lemma_dec_len, lemma_dec_no_underscore};
use vstd::prelude::*;

verus! {

/// How many of the first `end` nodes are branches labelled `c`.
pub open spec fn branch_count(s: Seq<ElemModel>, c: Seq<char>, end: int) -> int
    decreases end,
{
    if end <= 0 {
        0
    } else {
        branch_count(s, c, end - 1) + if s[end - 1].element_type is Branch && s[end - 1].content
            == c {
            1int
        } else {
            0int
        }
    }
}

/// `m` with the subscript `_k` appended to its label.
pub open spec fn subscripted_model(m: ElemModel, k: int) -> ElemModel {
    ElemModel {
        id: m.id,
        content: m.content + seq!['_'] + dec_of(k),
        parent: m.parent,
        level: m.level,
        triangle: m.triangle,
        element_type: m.element_type,
        width: m.width,
        indent: m.indent,
    }
}

/// One pass of the label post-processor over the whole collection.
pub open spec fn subscript_model(s: Seq<ElemModel>) -> Seq<ElemModel> {
    Seq::new(
        s.len(),
        |i: int|
            {
                let k = branch_count(s, s[i].content, i);
                if s[i].element_type is Branch && k >= 1 {
                    subscripted_model(s[i], k)
                } else {
                    s[i]
                }
            },
    )
}

/// Counting never shrinks as the prefix grows, and each branch
/// occurrence of the label steps it by one.
pub proof fn lemma_branch_count_mono(s: Seq<ElemModel>, c: Seq<char>, a: int, b: int)
    requires
        a <= b,
    ensures
        branch_count(s, c, a) <= branch_count(s, c, b),
    decreases b - a,
{
    if a < b {
        lemma_branch_count_mono(s, c, a, b - 1);
    }
}

/// A prefix with no branch labelled `c` counts zero.
proof fn lemma_branch_count_zero(s: Seq<ElemModel>, c: Seq<char>, end: int)
    requires
        forall|j: int|
            0 <= j < end ==> !((#[trigger] s[j]).element_type is Branch && s[j].content == c),
    ensures
        branch_count(s, c, end) <= 0,
    decreases end,
{
    if end > 0 {
        lemma_branch_count_zero(s, c, end - 1);
    }
}

/// Distinct branch labels: no two branch nodes carry the same label.
pub open spec fn branch_labels_distinct(s: Seq<ElemModel>) -> bool {
    forall|i: int, j: int|
        0 <= i < j < s.len() && (#[trigger] s[i]).element_type is Branch && (#[trigger] s[j]).element_type is Branch
            ==> s[i].content != s[j].content
}

/// No branch label of `s` holds an underscore.
pub open spec fn branch_labels_plain(s: Seq<ElemModel>) -> bool {
    forall|i: int, k: int|
        0 <= i < s.len() && s[i].element_type is Branch && 0 <= k < s[i].content.len() ==> (
        #[trigger] s[i].content[k]) != '_'
}

/// On a collection whose branch labels are pairwise distinct, the pass
/// changes nothing.
pub proof fn lemma_subscript_identity(s: Seq<ElemModel>)
    requires
        branch_labels_distinct(s),
    ensures
        subscript_model(s) == s,
{
    assert forall|i: int| 0 <= i < s.len() implies subscript_model(s)[i] == s[i] by {
        if s[i].element_type is Branch {
            assert forall|j: int|
                0 <= j < i implies !((#[trigger] s[j]).element_type is Branch && s[j].content
                == s[i].content) by {}
            lemma_branch_count_zero(s, s[i].content, i);
            lemma_branch_count_mono(s, s[i].content, 0, i);
        }
    }
    assert(subscript_model(s) =~= s);
}

/// The label the pass gives node `i`.
spec fn passed_content(s: Seq<ElemModel>, i: int) -> Seq<char> {
    let k = branch_count(s, s[i].content, i);
    if s[i].element_type is Branch && k >= 1 {
        s[i].content + seq!['_'] + dec_of(k)
    } else {
        s[i].content
    }
}

/// Concatenating a label, an underscore and a decimal is injective when
/// neither label nor decimal holds an underscore.
proof fn lemma_mark_injective(a: Seq<char>, x: int, b: Seq<char>, y: int)
    requires
        forall|k: int| 0 <= k < a.len() ==> a[k] != '_',
        forall|k: int| 0 <= k < b.len() ==> b[k] != '_',
        1 <= x,
        1 <= y,
        a + seq!['_'] + dec_of(x) == b + seq!['_'] + dec_of(y),
    ensures
        a == b,
        x == y,
{
    let s1 = a + seq!['_'] + dec_of(x);
    let s2 = b + seq!['_'] + dec_of(y);
    lemma_dec_no_underscore(x);
    lemma_dec_no_underscore(y);
    lemma_dec_len(x);
    lemma_dec_len(y);
    assert(s1[a.len() as int] == '_');
    assert(s2[b.len() as int] == '_');
    if a.len() < b.len() {
        assert(s2[a.len() as int] == b[a.len() as int]);
        assert(false);
    }
    if b.len() < a.len() {
        assert(s1[b.len() as int] == a[b.len() as int]);
        assert(false);
    }
    assert(a =~= b) by {
        assert forall|k: int| 0 <= k < a.len() implies a[k] == b[k] by {
            assert(s1[k] == a[k]);
            assert(s2[k] == b[k]);
        }
    }
    assert(a.len() == b.len());
    assert(s1.len() == s2.len());
    assert(dec_of(x).len() == dec_of(y).len());
    assert(dec_of(x) =~= dec_of(y)) by {
        assert forall|k: int| 0 <= k < dec_of(x).len() implies dec_of(x)[k] == dec_of(y)[k] by {
            assert(0 <= k < dec_of(y).len());
            assert(s1[a.len() + 1 + k] == dec_of(x)[k]);
            assert(s2[b.len() + 1 + k] == dec_of(y)[k]);
        }
    }
    lemma_dec_injective(x, y);
}

/// A plain label never equals a subscripted one.
proof fn lemma_mark_differs(a: Seq<char>, b: Seq<char>, y: int)
    requires
        forall|k: int| 0 <= k < a.len() ==> a[k] != '_',
    ensures
        a != b + seq!['_'] + dec_of(y),
{
    let s2 = b + seq!['_'] + dec_of(y);
    lemma_dec_len(y);
    if a == s2 {
        assert(a[b.len() as int] == s2[b.len() as int]);
        assert(s2[b.len() as int] == '_');
    }
}

/// After one pass over a collection whose branch labels hold no
/// underscore, the branch labels are pairwise distinct.
pub proof fn lemma_subscript_distinct(s: Seq<ElemModel>)
    requires
        branch_labels_plain(s),
    ensures
        branch_labels_distinct(subscript_model(s)),
{
    let t = subscript_model(s);
    assert forall|i: int, j: int|
        0 <= i < j < t.len() && (#[trigger] t[i]).element_type is Branch && (#[trigger] t[j]).element_type is Branch
        implies t[i].content != t[j].content by {
        assert(s[i].element_type is Branch && s[j].element_type is Branch);
        let ci = s[i].content;
        let cj = s[j].content;
        let ki = branch_count(s, ci, i);
        let kj = branch_count(s, cj, j);
        lemma_branch_count_mono(s, ci, 0, i);
        lemma_branch_count_mono(s, cj, 0, j);
        assert(t[i].content == passed_content(s, i));
        assert(t[j].content == passed_content(s, j));
        if ci == cj {
            // the earlier occurrence pushes the later count up
            lemma_branch_count_mono(s, cj, i + 1, j);
            assert(branch_count(s, cj, i + 1) == branch_count(s, cj, i) + 1);
            assert(kj >= ki + 1);
            if ki >= 1 {
                if t[i].content == t[j].content {
                    lemma_mark_injective(ci, ki, cj, kj);
                }
            } else {
                if t[i].content == t[j].content {
                    lemma_mark_differs(ci, cj, kj);
                }
            }
        } else {
            if ki >= 1 && kj >= 1 {
                if t[i].content == t[j].content {
                    lemma_mark_injective(ci, ki, cj, kj);
                }
            } else if ki >= 1 {
                if t[i].content == t[j].content {
                    lemma_mark_differs(cj, ci, ki);
                }
            } else if kj >= 1 {
                if t[i].content == t[j].content {
                    lemma_mark_differs(ci, cj, kj);
                }
            }
        }
    }
}

/// Idempotence of the label post-processor: on a collection whose
/// branch labels hold no underscore, running the pass twice yields
/// exactly what one run yields — once subscripted, labels are unique
/// and nothing is rewritten again.
pub proof fn lemma_subscript_idempotent(s: Seq<ElemModel>)
    requires
        branch_labels_plain(s),
    ensures
        subscript_model(subscript_model(s)) == subscript_model(s),
{
    lemma_subscript_distinct(s);
    lemma_subscript_identity(subscript_model(s));
}

} // verus!
