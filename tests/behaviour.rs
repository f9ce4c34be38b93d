use merkle_partial::merkle_tree_overlay::Shape;
use merkle_partial::node::{replace_index, Composite, Error, Node, PathElement, Primitive};
use merkle_partial::tree_arithmetic::{
    left_most_leaf, log_base_two, next_power_of_two, subtree_index_to_general,
};
use merkle_partial::{Number, U2, U3, U4, U5};

fn prim(ident: &str, index: u64, size: u8, offset: u8) -> Primitive {
    Primitive {
        ident: ident.to_string(),
        index,
        size,
        offset,
    }
}

#[test]
fn next_power_of_two_values() {
    assert_eq!(next_power_of_two(0), 1);
    assert_eq!(next_power_of_two(1), 1);
    assert_eq!(next_power_of_two(2), 2);
    assert_eq!(next_power_of_two(5), 8);
    assert_eq!(next_power_of_two(8), 8);
    assert_eq!(next_power_of_two(1 << 63), 1 << 63);
}

#[test]
fn log_base_two_values() {
    assert_eq!(log_base_two(1), 0);
    assert_eq!(log_base_two(8), 3);
    assert_eq!(log_base_two(1 << 40), 40);
}

#[test]
fn left_most_leaf_values() {
    assert_eq!(left_most_leaf(0, 0), 0);
    assert_eq!(left_most_leaf(0, 3), 7);
    assert_eq!(left_most_leaf(2, 1), 5);
    assert_eq!(left_most_leaf(1, 2), 7);
}

#[test]
fn subtree_index_to_general_values() {
    assert_eq!(subtree_index_to_general(7, 0), 7);
    assert_eq!(subtree_index_to_general(7, 2), 16);
    assert_eq!(subtree_index_to_general(4, 3), 19);
    assert_eq!(subtree_index_to_general(7, 19), 131);
    assert_eq!(subtree_index_to_general(0, 5), 5);
}

#[test]
fn scalar_resolves_only_the_empty_path() {
    let s = Shape::basic(8);
    assert_eq!(s.height(), 0);
    assert_eq!(s.get_node(vec![]), Ok(Node::Primitive(vec![prim("", 0, 8, 0)])));
    assert_eq!(
        s.get_node(vec![PathElement::Index(0)]),
        Err(Error::InvalidPath(PathElement::Index(0)))
    );
}

#[test]
fn collection_needs_a_selector() {
    let s = Shape::fixed_vector(Shape::basic(32), 4);
    assert_eq!(s.get_node(vec![]), Err(Error::EmptyPath));
}

#[test]
fn unknown_name_on_list_is_invalid() {
    let s = Shape::variable_list(Shape::basic(32), 4);
    assert_eq!(
        s.get_node(vec![PathElement::Ident("size".to_string())]),
        Err(Error::InvalidPath(PathElement::Ident("size".to_string())))
    );
}

#[test]
fn fixed_vector_height_formula_and_bounds() {
    // 100 two-byte scalars: 16 per chunk, 6 chunks, 8 leaves.
    let s = Shape::fixed_vector(Shape::basic(2), 100);
    assert_eq!(s.height(), 3);
    for p in 0..100 {
        assert!(s.get_node(vec![PathElement::Index(p)]).is_ok());
    }
    assert_eq!(
        s.get_node(vec![PathElement::Index(100)]),
        Err(Error::IndexOutOfBounds(100))
    );
    // Fewer elements than fit in one chunk.
    assert_eq!(Shape::fixed_vector(Shape::basic(4), 3).height(), 0);
    assert_eq!(Shape::fixed_vector(Shape::basic(32), 5).height(), 3);
}

#[test]
fn packed_leaf_set_of_two_byte_scalars() {
    let s = Shape::fixed_vector(Shape::basic(2), 100);
    let expected: Vec<Primitive> = (0..16u8)
        .map(|i| prim(&(16 + i as u64).to_string(), 8, 2, 2 * i))
        .collect();
    assert_eq!(s.get_node(vec![PathElement::Index(20)]), Ok(Node::Primitive(expected.clone())));
    assert_eq!(s.generate_leaf(8), Node::Primitive(expected));
}

#[test]
fn variable_list_is_one_level_taller() {
    for (size, len) in [(32u8, 8u64), (2, 100), (1, 32), (8, 1)] {
        let v = Shape::fixed_vector(Shape::basic(size), len);
        let l = Shape::variable_list(Shape::basic(size), len);
        assert_eq!(l.height(), v.height() + 1);
        assert_eq!(
            l.get_node(vec![PathElement::Ident("len".to_string())]),
            Ok(Node::Length(prim("len", 2, 32, 0)))
        );
    }
}

#[test]
fn two_level_path_composes_remapping() {
    let inner = Shape::variable_list(Shape::basic(32), 2);
    let outer = Shape::variable_list(inner, 4);
    let inner = Shape::variable_list(Shape::basic(32), 2);
    let child = inner.get_node(vec![PathElement::Index(1)]).unwrap().get_index();
    let anchor = left_most_leaf(0, outer.height() as u64) + 2;
    let expected = subtree_index_to_general(anchor, child);
    let node = outer
        .get_node(vec![PathElement::Index(2), PathElement::Index(1)])
        .unwrap();
    assert_eq!(node.get_index(), expected);
    assert_eq!(expected, 9 * 4 + 4);
}

#[test]
fn resolving_twice_gives_the_same_node() {
    let s = Shape::variable_list(Shape::fixed_vector(Shape::basic(1), 64), 3);
    let path = vec![PathElement::Index(2), PathElement::Index(40)];
    assert_eq!(s.get_node(path.clone()), s.get_node(path));
}

#[test]
fn replace_index_moves_every_variant() {
    let set = Node::Primitive(vec![prim("0", 3, 16, 0), prim("1", 3, 16, 16)]);
    assert_eq!(
        replace_index(set, 40),
        Node::Primitive(vec![prim("0", 40, 16, 0), prim("1", 40, 16, 16)])
    );
    let c = Node::Composite(Composite {
        ident: "2".to_string(),
        index: 5,
        height: 4,
    });
    assert_eq!(
        replace_index(c, 9),
        Node::Composite(Composite {
            ident: "2".to_string(),
            index: 9,
            height: 4
        })
    );
    assert_eq!(
        replace_index(Node::Length(prim("len", 2, 32, 0)), 16),
        Node::Length(prim("len", 16, 32, 0))
    );
}

#[test]
fn composite_leaf_carries_element_height() {
    let s = Shape::fixed_vector(Shape::variable_list(Shape::basic(32), 8), 4);
    assert_eq!(
        s.get_node(vec![PathElement::Index(3)]),
        Ok(Node::Composite(Composite {
            ident: "3".to_string(),
            index: 6,
            height: 4
        }))
    );
}

#[test]
fn well_formedness_check() {
    assert!(Shape::fixed_vector(Shape::basic(32), 8).is_well_formed());
    assert!(!Shape::fixed_vector(Shape::basic(32), u64::MAX).is_well_formed());
    assert!(!Shape::Basic { size: 0 }.is_well_formed());
    assert!(!Shape::Basic { size: 33 }.is_well_formed());
}

#[test]
fn numbers() {
    assert_eq!(U2::val(), 2);
    assert_eq!(U3::val(), 3);
    assert_eq!(U4::val(), 4);
    assert_eq!(U5::val(), 5);
}
