//! The overlay of each serializable shape: its tree height, and the
//! resolution of a path to the node it names.
use crate::node::{
    decimal, decimal_string, replace_index, result_view, Composite, CompositeView, Error,
    ErrorView, Node, NodeView, PathElement, PathView, Primitive, PrimitiveView,
};
use crate::tree_arithmetic::{
    ceil_log2, lemma_ceil_log2_bound, lemma_pow2_high, lemma_pow2_monotone, lemma_pow2_step, lemma_pow2_zero,
    left_most_leaf, left_most_leaf_spec, log_base_two, next_power_of_two, subtree_index_to_general,
    subtree_index_to_general_spec, lemma_subtree_index_bound,
};
use crate::{NodeIndex, BYTES_PER_CHUNK};
use vstd::arithmetic::div_mod::lemma_div_is_ordered;
use vstd::arithmetic::power2::{lemma2_to64, lemma_pow2_strictly_increases, pow2};
use vstd::prelude::*;

verus! {

/// The static layout of a serializable value.
#[derive(Debug, PartialEq, Eq)]
pub enum Shape {
    /// A scalar of `size` bytes; several may share one chunk.
    Basic { size: u8 },
    /// `len` elements of shape `elem`.
    FixedVector { elem: Box<Shape>, len: u64 },
    /// Up to `len` elements of shape `elem`, with a length field beside them.
    VariableList { elem: Box<Shape>, len: u64 },
}

/// Bytes that one element of shape `s` takes in a chunk: a scalar its size,
/// a nested shape a whole chunk (its subtree's root).
pub open spec fn item_size(s: Shape) -> nat {
    match s {
        Shape::Basic { size } => size as nat,
        _ => 32,
    }
}

/// Elements of shape `elem` that share one chunk.
pub open spec fn items_per_chunk(elem: Shape) -> nat {
    32nat / item_size(elem)
}

/// Height of the tree over the elements of a collection.
pub open spec fn data_height(elem: Shape, len: u64) -> nat {
    ceil_log2(len as nat / items_per_chunk(elem))
}

/// Height of the tree of shape `s`.
pub open spec fn height_of(s: Shape) -> nat {
    match s {
        Shape::Basic { .. } => 0,
        Shape::FixedVector { elem, len } => data_height(*elem, len),
        Shape::VariableList { elem, len } => data_height(*elem, len) + 1,
    }
}

/// A bound on the generalized indices that resolving a path against `s`
/// produces: they stay below `2^index_bits(s)`.
pub open spec fn index_bits(s: Shape) -> nat
    decreases s,
{
    match s {
        Shape::Basic { .. } => 1,
        Shape::FixedVector { elem, .. } => height_of(s) + 3 + index_bits(*elem),
        Shape::VariableList { elem, .. } => height_of(s) + 3 + index_bits(*elem),
    }
}

/// Every scalar takes between 1 and 32 bytes.
pub open spec fn sizes_valid(s: Shape) -> bool
    decreases s,
{
    match s {
        Shape::Basic { size } => 1 <= size <= 32,
        Shape::FixedVector { elem, .. } => sizes_valid(*elem),
        Shape::VariableList { elem, .. } => sizes_valid(*elem),
    }
}

/// The element shape of a collection.
pub open spec fn elem_of(s: Shape) -> Shape {
    match s {
        Shape::FixedVector { elem, .. } => *elem,
        Shape::VariableList { elem, .. } => *elem,
        Shape::Basic { .. } => s,
    }
}

/// The static capacity of a collection.
pub open spec fn len_of(s: Shape) -> u64 {
    match s {
        Shape::FixedVector { len, .. } => len,
        Shape::VariableList { len, .. } => len,
        Shape::Basic { .. } => 0,
    }
}

pub open spec fn is_collection(s: Shape) -> bool {
    !(s is Basic)
}

/// Local generalized index of the chunk that holds element `position` of a
/// collection.
pub open spec fn leaf_of(s: Shape, position: u64) -> nat {
    left_most_leaf_spec(0, height_of(s)) + position as nat / items_per_chunk(elem_of(s))
}

/// The node that stands at chunk `leaf` of a collection, seen from the
/// collection: the scalars packed into it, or the subtree of a nested shape.
pub open spec fn leaf_node(s: Shape, leaf: nat) -> NodeView {
    let chunk = leaf - left_most_leaf_spec(0, height_of(s));
    match elem_of(s) {
        Shape::Basic { size } => {
            let k = 32nat / (size as nat);
            NodeView::Primitive(
                Seq::new(
                    k,
                    |i: int|
                        PrimitiveView {
                            ident: decimal((chunk * k + i) as nat),
                            index: leaf as u64,
                            size: size,
                            offset: (i * size) as u8,
                        },
                ),
            )
        },
        _ => NodeView::Composite(
            CompositeView {
                ident: decimal(chunk as nat),
                index: leaf as u64,
                height: height_of(elem_of(s)) as u8,
            },
        ),
    }
}

/// The descriptor of a list's length field, in the list's own tree.
pub open spec fn length_node() -> NodeView {
    NodeView::Length(PrimitiveView { ident: "len"@, index: 2, size: 32, offset: 0 })
}

/// Resolution of `path` against a collection `s`, given what its element
/// shape resolves the rest of the path to.
pub open spec fn resolve_in_collection(
    s: Shape,
    path: Seq<PathView>,
    rest: Result<NodeView, ErrorView>,
) -> Result<NodeView, ErrorView> {
    if path.len() == 0 {
        Err(ErrorView::EmptyPath)
    } else {
        match path[0] {
            PathView::Index(position) => if position >= len_of(s) {
                Err(ErrorView::IndexOutOfBounds(position))
            } else if path.len() == 1 {
                Ok(leaf_node(s, leaf_of(s, position)))
            } else {
                match rest {
                    Ok(n) => Ok(
                        n.with_index(
                            subtree_index_to_general_spec(leaf_of(s, position), n.index() as nat)
                                as u64,
                        ),
                    ),
                    Err(e) => Err(e),
                }
            },
            PathView::Ident(name) => if s is VariableList && name == "len"@ {
                Ok(length_node())
            } else {
                Err(ErrorView::InvalidPath(path[0]))
            },
        }
    }
}

/// What `path` names in a value of shape `s`.
pub open spec fn resolve(s: Shape, path: Seq<PathView>) -> Result<NodeView, ErrorView>
    decreases s,
{
    match s {
        Shape::Basic { size } => if path.len() == 0 {
            Ok(
                NodeView::Primitive(
                    seq![PrimitiveView { ident: Seq::empty(), index: 0, size: size, offset: 0 }],
                ),
            )
        } else {
            Err(ErrorView::InvalidPath(path[0]))
        },
        Shape::FixedVector { elem, .. } => resolve_in_collection(
            s,
            path,
            resolve(*elem, path.drop_first()),
        ),
        Shape::VariableList { elem, .. } => resolve_in_collection(
            s,
            path,
            resolve(*elem, path.drop_first()),
        ),
    }
}

/// Model of a path.
pub open spec fn path_view(path: Seq<PathElement>) -> Seq<PathView> {
    path.map_values(|e: PathElement| e@)
}

impl Shape {
    /// Well-formed: scalar sizes in 1..=32 and every generalized index that
    /// resolution can produce below `2^63`.
    pub open spec fn well_formed(self) -> bool {
        sizes_valid(self) && index_bits(self) <= 63
    }

    /// A scalar of `size` bytes.
    pub fn basic(size: u8) -> (r: Shape)
        requires
            1 <= size <= 32,
        ensures
            r == (Shape::Basic { size }),
            r.well_formed(),
    {
        Shape::Basic { size }
    }

    /// A fixed-length vector of `len` elements of shape `elem`.
    pub fn fixed_vector(elem: Shape, len: u64) -> (r: Shape)
        ensures
            r == (Shape::FixedVector { elem: Box::new(elem), len }),
    {
        Shape::FixedVector { elem: Box::new(elem), len }
    }

    /// A variable-length list of up to `len` elements of shape `elem`.
    pub fn variable_list(elem: Shape, len: u64) -> (r: Shape)
        ensures
            r == (Shape::VariableList { elem: Box::new(elem), len }),
    {
        Shape::VariableList { elem: Box::new(elem), len }
    }
}

pub proof fn lemma_index_bits_positive(s: Shape)
    ensures
        index_bits(s) >= 1,
{
}

/// The element of a well-formed collection is well formed, and the heights
/// stay within the bound on indices.
pub proof fn lemma_elem_well_formed(s: Shape)
    requires
        s.well_formed(),
        is_collection(s),
    ensures
        elem_of(s).well_formed(),
        height_of(s) + 3 + index_bits(elem_of(s)) <= 63,
        data_height(elem_of(s), len_of(s)) <= 60,
        height_of(s) <= 60,
        1 <= items_per_chunk(elem_of(s)) <= 32,
{
    lemma_index_bits_positive(elem_of(s));
    lemma_items_per_chunk(elem_of(s));
}

pub proof fn lemma_items_per_chunk(e: Shape)
    requires
        sizes_valid(e),
    ensures
        1 <= items_per_chunk(e) <= 32,
{
    if let Shape::Basic { size } = e {
        let z = size as nat;
        assert(1 <= 32nat / z <= 32) by (nonlinear_arith)
            requires
                1 <= z <= 32,
        ;
    }
}

/// The chunk that holds an element in range lies on the leaf level of the
/// collection's tree, or just after it, and below `2^(height + 2)`.
pub proof fn lemma_leaf_bound(s: Shape, position: u64)
    requires
        s.well_formed(),
        is_collection(s),
        position < len_of(s),
    ensures
        left_most_leaf_spec(0, height_of(s)) <= leaf_of(s, position) < pow2(height_of(s) + 2),
        pow2(height_of(s) + 2) <= 0x8000_0000_0000_0000,
{
    lemma_elem_well_formed(s);
    let k = items_per_chunk(elem_of(s));
    let m = len_of(s) as nat / k;
    let d = data_height(elem_of(s), len_of(s));
    let h = height_of(s);
    lemma_div_is_ordered(position as int, len_of(s) as int, k as int);
    lemma_ceil_log2_bound(m);
    lemma_pow2_monotone(d, h);
    lemma_pow2_step(h);
    lemma_pow2_step(h + 1);
    lemma_pow2_monotone(h + 2, 63);
    lemma_pow2_high();
    assert(position as nat / k <= m);
    assert((0nat + 1) * pow2(h) == pow2(h)) by (nonlinear_arith);
    assert(left_most_leaf_spec(0, h) == pow2(h) - 1);
    assert(leaf_of(s, position) == pow2(h) - 1 + position as nat / k);
}

/// Relating the exponent found for a power of two to the one it was built from.
proof fn lemma_pow2_injective(a: nat, b: nat)
    requires
        pow2(a) == pow2(b),
    ensures
        a == b,
{
    if a < b {
        lemma_pow2_strictly_increases(a, b);
    } else if b < a {
        lemma_pow2_strictly_increases(b, a);
    }
}

impl Shape {
    /// Bytes that one element of this shape takes in a chunk.
    pub fn item_size(&self) -> (r: u64)
        ensures
            r == item_size(*self),
    {
        match self {
            Shape::Basic { size } => *size as u64,
            _ => BYTES_PER_CHUNK,
        }
    }

    /// Elements of this shape that share one chunk.
    pub fn items_per_chunk(&self) -> (r: u64)
        requires
            sizes_valid(*self),
        ensures
            r == items_per_chunk(*self),
            1 <= r <= 32,
    {
        proof {
            lemma_items_per_chunk(*self);
        }
        BYTES_PER_CHUNK / self.item_size()
    }

    /// The element shape of a collection.
    pub fn elem(&self) -> (r: &Shape)
        ensures
            *r == elem_of(*self),
    {
        match self {
            Shape::FixedVector { elem, .. } => elem,
            Shape::VariableList { elem, .. } => elem,
            Shape::Basic { .. } => self,
        }
    }

    /// The static capacity of a collection (0 for a scalar).
    pub fn capacity(&self) -> (r: u64)
        ensures
            r == len_of(*self),
    {
        match self {
            Shape::FixedVector { len, .. } => *len,
            Shape::VariableList { len, .. } => *len,
            Shape::Basic { .. } => 0,
        }
    }

    /// Height of the tree of this shape: 0 for a scalar,
    /// `log2(next_power_of_two(len / items_per_chunk))` for a fixed vector,
    /// one more for a variable list.
    pub fn height(&self) -> (r: u8)
        requires
            self.well_formed(),
        ensures
            r == height_of(*self),
    {
        match self {
            Shape::Basic { .. } => 0,
            _ => {
                proof {
                    lemma_elem_well_formed(*self);
                }
                let elem = self.elem();
                let len = self.capacity();
                let k = elem.items_per_chunk();
                let ghost m = len as nat / k as nat;
                proof {
                    lemma_ceil_log2_bound(m);
                    lemma_pow2_monotone(ceil_log2(m), 60);
                    lemma_pow2_high();
                }
                let leaves = next_power_of_two(len / k);
                let h = log_base_two(leaves);
                proof {
                    lemma_pow2_injective(h as nat, ceil_log2(m));
                }
                match self {
                    Shape::VariableList { .. } => h as u8 + 1,
                    _ => h as u8,
                }
            },
        }
    }

    /// The node at chunk `index` of this collection: the packed scalars that
    /// share it, each named by its ordinal, or the subtree of a nested shape,
    /// named by its position.
    pub fn generate_leaf(&self, index: NodeIndex) -> (r: Node)
        requires
            self.well_formed(),
            is_collection(*self),
            left_most_leaf_spec(0, height_of(*self)) <= index < pow2(height_of(*self) + 2),
            pow2(height_of(*self) + 2) <= 0x8000_0000_0000_0000,
        ensures
            r@ == leaf_node(*self, index as nat),
    {
        proof {
            lemma_elem_well_formed(*self);
            lemma_pow2_monotone(height_of(*self), height_of(*self) + 2);
        }
        let first_leaf = left_most_leaf(0, self.height() as u64);
        let chunk = index - first_leaf;
        let elem = self.elem();
        match elem {
            Shape::Basic { size } => {
                let size = *size;
                let k: u64 = BYTES_PER_CHUNK / (size as u64);
                proof {
                    lemma_items_per_chunk(*elem);
                }
                let mut values: Vec<Primitive> = Vec::new();
                let mut i: u64 = 0;
                while i < k
                    invariant
                        1 <= size <= 32,
                        k == 32nat / (size as nat),
                        1 <= k <= 32,
                        i <= k,
                        chunk < 0x8000_0000_0000_0000,
                        values@.len() == i,
                        forall|j: int|
                            0 <= j < i ==> (#[trigger] values@[j])@ == (PrimitiveView {
                                ident: decimal((chunk * k + j) as nat),
                                index: index,
                                size: size,
                                offset: (j * size) as u8,
                            }),
                    decreases k - i,
                {
                    assert(i * size < 32) by (nonlinear_arith)
                        requires
                            i < k,
                            k == 32nat / (size as nat),
                            1 <= size,
                    ;
                    assert(chunk * k + i < 0x10_0000_0000_0000_0000_0000) by (nonlinear_arith)
                        requires
                            chunk < 0x8000_0000_0000_0000,
                            k <= 32,
                            i < k,
                    ;
                    let ident = decimal_string(chunk as u128 * k as u128 + i as u128);
                    let offset = (i * size as u64) as u8;
                    values.push(Primitive { ident, index, size, offset });
                    i = i + 1;
                }
                let r = Node::Primitive(values);
                assert(r@ == leaf_node(*self, index as nat)) by {
                    if let NodeView::Primitive(t) = leaf_node(*self, index as nat) {
                        assert(values@.map_values(|p: Primitive| p@) =~= t);
                    }
                }
                r
            },
            _ => {
                let height = elem.height();
                Node::Composite(Composite { ident: decimal_string(chunk as u128), index, height })
            },
        }
    }

    /// Resolves `path` against this shape (see `resolve`).
    pub fn get_node(&self, path: Vec<PathElement>) -> (r: Result<Node, Error>)
        requires
            self.well_formed(),
        ensures
            result_view(r) == resolve(*self, path_view(path@)),
    {
        proof {
            assert(path_view(path@).subrange(0, path@.len() as int) =~= path_view(path@));
        }
        self.get_node_from(&path, 0)
    }

    pub(crate) fn get_node_from(&self, path: &Vec<PathElement>, start: usize) -> (r: Result<Node, Error>)
        requires
            self.well_formed(),
            start <= path@.len(),
        ensures
            result_view(r) == resolve(
                *self,
                path_view(path@).subrange(start as int, path@.len() as int),
            ),
            r is Ok ==> (r->Ok_0)@.index() < pow2(index_bits(*self)),
        decreases *self,
    {
        let ghost pv = path_view(path@).subrange(start as int, path@.len() as int);
        proof {
            lemma_pow2_high();
        }
        match self {
            Shape::Basic { size } => {
                if start == path.len() {
                    proof {
                        lemma_pow2_step(0);
                        lemma_pow2_zero();
                        assert(index_bits(*self) == 1);
                        assert(pow2(1) == 2);
                    }
                    let r = Ok(
                        Node::Primitive(
                            vec![Primitive { ident: String::new(), index: 0, size: *size, offset: 0 }],
                        ),
                    );
                    assert(result_view(r) == resolve(*self, pv)) by {
                        if let Ok(NodeView::Primitive(t)) = resolve(*self, pv) {
                            if let Ok(NodeView::Primitive(u)) = result_view(r) {
                                assert(u =~= t);
                            }
                        }
                    }
                    assert(result_view(r) is Ok ==> (result_view(r)->Ok_0).index() == 0);
                    r
                } else {
                    Err(Error::InvalidPath(path[start].duplicate()))
                }
            },
            _ => {
                proof {
                    lemma_elem_well_formed(*self);
                }
                if start == path.len() {
                    return Err(Error::EmptyPath);
                }
                let is_list = match self {
                    Shape::VariableList { .. } => true,
                    _ => false,
                };
                let len = self.capacity();
                match &path[start] {
                    PathElement::Index(position) => {
                        let position = *position;
                        if position >= len {
                            return Err(Error::IndexOutOfBounds(position));
                        }
                        proof {
                            lemma_leaf_bound(*self, position);
                            lemma_pow2_monotone(height_of(*self), height_of(*self) + 2);
                        }
                        let first_leaf = left_most_leaf(0, self.height() as u64);
                        let elem = self.elem();
                        let leaf = first_leaf + position / elem.items_per_chunk();
                        if path.len() - start == 1 {
                            proof {
                                lemma_pow2_monotone(height_of(*self) + 2, index_bits(*self));
                            }
                            Ok(self.generate_leaf(leaf))
                        } else {
                            let rest = elem.get_node_from(path, start + 1);
                            proof {
                                assert(path_view(path@).subrange(start + 1, path@.len() as int)
                                    =~= pv.drop_first());
                            }
                            match rest {
                                Ok(node) => {
                                    let ghost c = node@.index();
                                    proof {
                                        lemma_subtree_index_bound(
                                            leaf as nat,
                                            c as nat,
                                            height_of(*self) + 2,
                                            index_bits(*elem),
                                        );
                                        lemma_pow2_monotone(index_bits(*elem), 60);
                                        lemma_pow2_monotone(index_bits(*self), 63);
                                    }
                                    let index = subtree_index_to_general(leaf, node.get_index());
                                    Ok(replace_index(node, index))
                                },
                                Err(e) => Err(e),
                            }
                        }
                    },
                    PathElement::Ident(name) => {
                        let len_name = String::from_str("len");
                        if is_list && *name == len_name {
                            proof {
                                lemma2_to64();
                                lemma_pow2_monotone(3, index_bits(*self));
                            }
                            Ok(
                                Node::Length(
                                    Primitive { ident: len_name, index: 2, size: 32, offset: 0 },
                                ),
                            )
                        } else {
                            Err(Error::InvalidPath(path[start].duplicate()))
                        }
                    },
                }
            },
        }
    }
}

impl Shape {
    /// Whether every scalar of the shape takes between 1 and 32 bytes.
    pub fn sizes_are_valid(&self) -> (r: bool)
        ensures
            r == sizes_valid(*self),
        decreases *self,
    {
        match self {
            Shape::Basic { size } => 1 <= *size && *size <= 32,
            Shape::FixedVector { elem, .. } => elem.sizes_are_valid(),
            Shape::VariableList { elem, .. } => elem.sizes_are_valid(),
        }
    }

    fn index_bits_within(&self, limit: u64) -> (r: bool)
        requires
            sizes_valid(*self),
            limit <= 63,
        ensures
            r == (index_bits(*self) <= limit),
        decreases *self,
    {
        match self {
            Shape::Basic { .. } => 1 <= limit,
            _ => {
                let elem = self.elem();
                let k = elem.items_per_chunk();
                let m = self.capacity() / k;
                if m > 0x1000_0000_0000_0000 {
                    proof {
                        lemma_pow2_high();
                        if ceil_log2(m as nat) <= 60 {
                            lemma_ceil_log2_bound(m as nat);
                            lemma_pow2_monotone(ceil_log2(m as nat), 60);
                        }
                    }
                    return false;
                }
                proof {
                    lemma_pow2_high();
                }
                let leaves = next_power_of_two(m);
                let d = log_base_two(leaves);
                proof {
                    lemma_pow2_injective(d as nat, ceil_log2(m as nat));
                }
                let h = match self {
                    Shape::VariableList { .. } => d + 1,
                    _ => d,
                };
                if h + 3 > limit {
                    false
                } else {
                    elem.index_bits_within(limit - h - 3)
                }
            },
        }
    }

    /// Whether the shape is well formed (see `well_formed`).
    pub fn is_well_formed(&self) -> (r: bool)
        ensures
            r == self.well_formed(),
    {
        self.sizes_are_valid() && self.index_bits_within(63)
    }
}

} // verus!
