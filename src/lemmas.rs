//! Laws that relate heights, resolution and index remapping.
use crate::merkle_tree_overlay::{
    elem_of, height_of, is_collection, items_per_chunk, lemma_items_per_chunk, len_of,
    length_node, path_view, resolve, Shape,
};
use crate::node::{result_view, Error, ErrorView, Node, NodeView, PathElement, PathView};
use crate::tree_arithmetic::{
    left_most_leaf_spec, next_power_of_two_spec, subtree_index_to_general_spec,
};
use vstd::arithmetic::power2::pow2;
use vstd::prelude::*;

verus! {

/// The height of a fixed vector is `log2(next_power_of_two(len / items_per_chunk))`,
/// with at least one item per chunk; every ordinal below its capacity
/// resolves, and the capacity itself is out of bounds.
pub proof fn lemma_fixed_vector_height_and_bounds(elem: Shape, len: u64)
    requires
        (Shape::FixedVector { elem: Box::new(elem), len }).well_formed(),
    ensures
        ({
            let s = Shape::FixedVector { elem: Box::new(elem), len };
            &&& items_per_chunk(elem) >= 1
            &&& pow2(height_of(s)) == next_power_of_two_spec(len as nat / items_per_chunk(elem))
            &&& forall|p: u64| p < len ==> (#[trigger] resolve(s, seq![PathView::Index(p)])) is Ok
            &&& resolve(s, seq![PathView::Index(len)]) == Err::<NodeView, ErrorView>(
                ErrorView::IndexOutOfBounds(len),
            )
        }),
{
    lemma_items_per_chunk(elem);
}

/// A variable list is one level taller than the fixed vector of the same
/// element and capacity, and `len` names its length field at local index 2.
pub proof fn lemma_variable_list_height_and_length(elem: Shape, len: u64)
    ensures
        height_of(Shape::VariableList { elem: Box::new(elem), len }) == height_of(
            Shape::FixedVector { elem: Box::new(elem), len },
        ) + 1,
        resolve(
            Shape::VariableList { elem: Box::new(elem), len },
            seq![PathView::Ident("len"@)],
        ) == Ok::<NodeView, ErrorView>(length_node()),
        length_node().index() == 2,
        length_node() is Length,
{
}

/// Every packed leaf set that resolution produces holds at least one scalar.
pub proof fn lemma_resolved_leaf_sets_nonempty(s: Shape, path: Seq<PathView>)
    requires
        s.well_formed(),
        resolve(s, path) is Ok,
    ensures
        resolve(s, path)->Ok_0 is Primitive ==> (resolve(s, path)->Ok_0)->Primitive_0.len() > 0,
    decreases s,
{
    if is_collection(s) {
        crate::merkle_tree_overlay::lemma_elem_well_formed(s);
        if path.len() > 1 && path[0] is Index {
            lemma_resolved_leaf_sets_nonempty(elem_of(s), path.drop_first());
        }
    }
}

/// Remapping composes: resolving `[a] + rest` through a collection gives the
/// index that the element shape resolves `rest` to, moved under the chunk
/// `left_most_leaf(0, height) + a / items_per_chunk` of the collection.
pub proof fn lemma_remap_composes(s: Shape, a: u64, rest: Seq<PathView>)
    requires
        s.well_formed(),
        is_collection(s),
        a < len_of(s),
        rest.len() > 0,
        resolve(elem_of(s), rest) is Ok,
    ensures
        resolve(s, seq![PathView::Index(a)] + rest) is Ok,
        (resolve(s, seq![PathView::Index(a)] + rest)->Ok_0).index()
            == subtree_index_to_general_spec(
            left_most_leaf_spec(0, height_of(s)) + a as nat / items_per_chunk(elem_of(s)),
            (resolve(elem_of(s), rest)->Ok_0).index() as nat,
        ) as u64,
{
    let path = seq![PathView::Index(a)] + rest;
    assert(path.drop_first() =~= rest);
    crate::merkle_tree_overlay::lemma_elem_well_formed(s);
    lemma_resolved_leaf_sets_nonempty(elem_of(s), rest);
}

/// Resolution has no hidden state: two calls of `get_node` with the same
/// shape and path give the same descriptor or the same error.
pub proof fn lemma_get_node_idempotent(
    s: Shape,
    path: Seq<PathElement>,
    first: Result<Node, Error>,
    second: Result<Node, Error>,
)
    requires
        result_view(first) == resolve(s, path_view(path)),
        result_view(second) == resolve(s, path_view(path)),
    ensures
        result_view(first) == result_view(second),
{
}

} // verus!
