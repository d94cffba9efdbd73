//! The tree node produced by the parser.

use vstd::prelude::*;

verus! {

/// Role of a node in the tree: a `Branch` has descendants, a `Leaf` is
/// terminal, and `Undefined` is reserved for the rendering stage.
#[derive(Clone, Copy, Debug, PartialEq, Eq, Structural)]
pub enum ElementType {
    Branch,
    Leaf,
    Undefined,
}

impl Default for ElementType {
    fn default() -> (r: Self)
        ensures
            r is Leaf,
    {
        ElementType::Leaf
    }
}

/// One tree node.
///
/// `id` is unique and assigned in creation order starting at 1; `parent`
/// holds the id of the owning node, with 0 standing for the unmaterialized
/// root; `level` is the nesting depth, the root's children sitting at 0;
/// `triangle` records that the label carried a trailing `^` marker, which
/// is stripped from `content`. `width` and `indent` are geometry fields
/// owned by the rendering stage and are always zero-initialized here.
#[derive(Debug)]
pub struct Element {
    pub id: usize,
    pub content: String,
    pub parent: usize,
    pub level: usize,
    pub triangle: bool,
    pub element_type: ElementType,
    pub width: usize,
    pub indent: usize,
}

/// Mathematical image of an [`Element`]: the same fields over `int` and
/// `Seq<char>`.
pub ghost struct ElemModel {
    pub id: int,
    pub content: Seq<char>,
    pub parent: int,
    pub level: int,
    pub triangle: bool,
    pub element_type: ElementType,
    pub width: int,
    pub indent: int,
}

impl View for Element {
    type V = ElemModel;

    open spec fn view(&self) -> ElemModel {
        ElemModel {
            id: self.id as int,
            content: self.content@,
            parent: self.parent as int,
            level: self.level as int,
            triangle: self.triangle,
            element_type: self.element_type,
            width: self.width as int,
            indent: self.indent as int,
        }
    }
}

/// The node that [`Element::new`] builds from a raw label: a trailing `^`
/// is stripped and recorded in `triangle`, the type defaults to `Leaf`,
/// and the geometry fields are zeroed.
pub open spec fn elem_model(id: int, raw: Seq<char>, parent: int, level: int) -> ElemModel {
    let tri = raw.len() > 0 && raw.last() == '^';
    ElemModel {
        id: id,
        content: if tri {
            raw.drop_last()
        } else {
            raw
        },
        parent: parent,
        level: level,
        triangle: tri,
        element_type: ElementType::Leaf,
        width: 0,
        indent: 0,
    }
}

impl Element {
    /// Build a node from a raw label, resolving the trailing `^` marker.
    pub fn new(id: usize, content: String, parent: usize, level: usize) -> (r: Element)
        ensures
            r@ == elem_model(id as int, content@, parent as int, level as int),
    {
        let n = content.as_str().unicode_len();
        let mut triangle = false;
        let mut stripped = content;
        if n > 0 && stripped.as_str().get_char(n - 1) == '^' {
            triangle = true;
            let shorter = stripped.as_str().substring_char(0, n - 1).to_owned();
            proof {
                assert(shorter@ =~= stripped@.drop_last());
            }
            stripped = shorter;
        }
        Element {
            id: id,
            content: stripped,
            parent: parent,
            level: level,
            triangle: triangle,
            element_type: ElementType::Leaf,
            width: 0,
            indent: 0,
        }
    }
}

impl Clone for Element {
    fn clone(&self) -> (r: Self)
        ensures
            r@ == self@,
    {
        Element {
            id: self.id,
            content: self.content.clone(),
            parent: self.parent,
            level: self.level,
            triangle: self.triangle,
            element_type: self.element_type,
            width: self.width,
            indent: self.indent,
        }
    }
}

/// Triangle marking: a raw label that ends with `^` always yields a node
/// with `triangle` set and the marker removed from its content, and a raw
/// label that does not ends up unmarked and untouched.
pub proof fn lemma_triangle_marking(id: int, raw: Seq<char>, parent: int, level: int)
    ensures
        raw.len() > 0 && raw.last() == '^' ==> {
            &&& elem_model(id, raw, parent, level).triangle
            &&& elem_model(id, raw, parent, level).content == raw.drop_last()
        },
        !(raw.len() > 0 && raw.last() == '^') ==> {
            &&& !elem_model(id, raw, parent, level).triangle
            &&& elem_model(id, raw, parent, level).content == raw
        },
{
}

} // verus!
