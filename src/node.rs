//! Path selectors, node descriptors and resolution errors.
use crate::NodeIndex;
use vstd::prelude::*;

verus! {

/// One selector of a path: an ordinal position or a field name.
#[derive(Debug, Clone, PartialEq, Eq)]
pub enum PathElement {
    Index(u64),
    Ident(String),
}

/// Mathematical model of a selector.
pub enum PathView {
    Index(u64),
    Ident(Seq<char>),
}

impl View for PathElement {
    type V = PathView;

    open spec fn view(&self) -> PathView {
        match self {
            PathElement::Index(i) => PathView::Index(*i),
            PathElement::Ident(s) => PathView::Ident(s@),
        }
    }
}

impl PathElement {
    /// A copy of this selector.
    pub fn duplicate(&self) -> (r: PathElement)
        ensures
            r@ == self@,
    {
        match self {
            PathElement::Index(i) => PathElement::Index(*i),
            PathElement::Ident(s) => PathElement::Ident(s.clone()),
        }
    }
}

/// A scalar packed into a chunk: its identifier, the chunk's generalized
/// index, its size in bytes and its byte offset within the chunk.
#[derive(Debug, Clone, PartialEq, Eq, Default)]
pub struct Primitive {
    pub ident: String,
    pub index: NodeIndex,
    pub size: u8,
    pub offset: u8,
}

pub struct PrimitiveView {
    pub ident: Seq<char>,
    pub index: u64,
    pub size: u8,
    pub offset: u8,
}

impl View for Primitive {
    type V = PrimitiveView;

    open spec fn view(&self) -> PrimitiveView {
        PrimitiveView { ident: self.ident@, index: self.index, size: self.size, offset: self.offset }
    }
}

/// The root of a nested subtree: its identifier, generalized index and height.
#[derive(Debug, Clone, PartialEq, Eq)]
pub struct Composite {
    pub ident: String,
    pub index: NodeIndex,
    pub height: u8,
}

pub struct CompositeView {
    pub ident: Seq<char>,
    pub index: u64,
    pub height: u8,
}

impl View for Composite {
    type V = CompositeView;

    open spec fn view(&self) -> CompositeView {
        CompositeView { ident: self.ident@, index: self.index, height: self.height }
    }
}

/// What a path resolves to.
#[derive(Debug, Clone, PartialEq, Eq)]
pub enum Node {
    /// The scalars that share one chunk.
    Primitive(Vec<Primitive>),
    /// A nested shape's subtree.
    Composite(Composite),
    /// The length field of a variable-length list.
    Length(Primitive),
}

pub enum NodeView {
    Primitive(Seq<PrimitiveView>),
    Composite(CompositeView),
    Length(PrimitiveView),
}

impl View for Node {
    type V = NodeView;

    open spec fn view(&self) -> NodeView {
        match self {
            Node::Primitive(b) => NodeView::Primitive(b@.map_values(|p: Primitive| p@)),
            Node::Composite(c) => NodeView::Composite(c@),
            Node::Length(p) => NodeView::Length(p@),
        }
    }
}

impl NodeView {
    /// Generalized index of the node (that of the first packed scalar for a
    /// leaf set).
    pub open spec fn index(self) -> u64 {
        match self {
            NodeView::Primitive(b) => if b.len() > 0 {
                b[0].index
            } else {
                0
            },
            NodeView::Composite(c) => c.index,
            NodeView::Length(p) => p.index,
        }
    }

    /// The same node moved to generalized index `index`.
    pub open spec fn with_index(self, index: u64) -> NodeView {
        match self {
            NodeView::Primitive(b) => NodeView::Primitive(
                b.map_values(
                    |p: PrimitiveView|
                        PrimitiveView { ident: p.ident, index: index, size: p.size, offset: p.offset },
                ),
            ),
            NodeView::Composite(c) => NodeView::Composite(
                CompositeView { ident: c.ident, index: index, height: c.height },
            ),
            NodeView::Length(p) => NodeView::Length(
                PrimitiveView { ident: p.ident, index: index, size: 32, offset: 0 },
            ),
        }
    }
}

impl Node {
    /// Returns the generalized index of the node.
    pub fn get_index(&self) -> (r: NodeIndex)
        ensures
            r == self@.index(),
    {
        match self {
            Node::Primitive(b) => if b.len() > 0 {
                b[0].index
            } else {
                0
            },
            Node::Composite(c) => c.index,
            Node::Length(p) => p.index,
        }
    }
}

/// Returns a copy of `node` with all its index values changed to `index`.
pub fn replace_index(node: Node, index: NodeIndex) -> (r: Node)
    ensures
        r@ == node@.with_index(index),
{
    match node {
        Node::Composite(c) => Node::Composite(Composite { ident: c.ident, index: index, height: c.height }),
        Node::Primitive(b) => {
            let mut out: Vec<Primitive> = Vec::new();
            let mut i: usize = 0;
            while i < b.len()
                invariant
                    i <= b@.len(),
                    out@.len() == i,
                    forall|j: int|
                        0 <= j < i ==> (#[trigger] out@[j])@ == (PrimitiveView {
                            ident: b@[j]@.ident,
                            index: index,
                            size: b@[j].size,
                            offset: b@[j].offset,
                        }),
                decreases b@.len() - i,
            {
                let p = &b[i];
                out.push(Primitive { ident: p.ident.clone(), index: index, size: p.size, offset: p.offset });
                i = i + 1;
            }
            let r = Node::Primitive(out);
            assert(r@ == node@.with_index(index)) by {
                if let NodeView::Primitive(s) = r@ {
                    if let NodeView::Primitive(t) = node@.with_index(index) {
                        assert(s =~= t);
                    }
                }
            }
            r
        },
        Node::Length(b) => Node::Length(Primitive { ident: b.ident, index: index, size: 32, offset: 0 }),
    }
}

/// Why a path could not be resolved.
#[derive(Debug, Clone, PartialEq, Eq)]
pub enum Error {
    /// The selector does not apply to the shape at this point.
    InvalidPath(PathElement),
    /// The ordinal is not below the shape's static capacity.
    IndexOutOfBounds(u64),
    /// The path ended where another selector was needed.
    EmptyPath,
    /// A proof does not hash up to the expected root, or lacks a requested
    /// leaf or a chunk needed on the way.
    VerificationFailed,
    /// Serialized proof bytes do not form records of whole chunks with
    /// distinct indices.
    MalformedProof,
}

pub enum ErrorView {
    InvalidPath(PathView),
    IndexOutOfBounds(u64),
    EmptyPath,
    VerificationFailed,
    MalformedProof,
}

impl View for Error {
    type V = ErrorView;

    open spec fn view(&self) -> ErrorView {
        match self {
            Error::InvalidPath(p) => ErrorView::InvalidPath(p@),
            Error::IndexOutOfBounds(i) => ErrorView::IndexOutOfBounds(*i),
            Error::EmptyPath => ErrorView::EmptyPath,
            Error::VerificationFailed => ErrorView::VerificationFailed,
            Error::MalformedProof => ErrorView::MalformedProof,
        }
    }
}

/// Model of a resolution result.
pub open spec fn result_view(r: Result<Node, Error>) -> Result<NodeView, ErrorView> {
    match r {
        Ok(n) => Ok(n@),
        Err(e) => Err(e@),
    }
}

/// Decimal digits of `n`, most significant first, without leading zeros.
pub open spec fn decimal(n: nat) -> Seq<char>
    decreases n,
{
    if n < 10 {
        seq![digit(n)]
    } else {
        decimal(n / 10).push(digit(n % 10))
    }
}

pub open spec fn digit(d: nat) -> char {
    seq!['0', '1', '2', '3', '4', '5', '6', '7', '8', '9'][d as int]
}

/// Relies on `ToString` for `u128`, through its `Display`: the decimal
/// digits of the number, with no sign and no padding.
#[verifier::external_body]
pub(crate) fn decimal_string(n: u128) -> (r: String)
    ensures
        r@ == decimal(n as nat),
{
    n.to_string()
}

} // verus!
