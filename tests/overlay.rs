use merkle_partial::merkle_tree_overlay::Shape;
use merkle_partial::node::{Composite, Error, Node, PathElement, Primitive};

fn u256() -> Shape {
    Shape::basic(32)
}

fn build_node(ident: &str, index: u64) -> Node {
    Node::Primitive(vec![Primitive {
        ident: ident.to_string(),
        index: index,
        size: 32,
        offset: 0,
    }])
}

fn ident_path(ident: &str) -> Vec<PathElement> {
    vec![PathElement::Ident(ident.to_string())]
}

fn index_path(index: u64) -> Vec<PathElement> {
    vec![PathElement::Index(index)]
}

fn length_node(index: u64) -> Node {
    Node::Length(Primitive {
        ident: "len".to_string(),
        index: index,
        size: 32,
        offset: 0,
    })
}

#[test]
fn variable_list_overlay() {
    // VariableList<U256, U8>
    let t = Shape::variable_list(u256(), 8);

    assert_eq!(t.get_node(ident_path("len")), Ok(length_node(2)));

    assert_eq!(t.get_node(index_path(0)), Ok(build_node("0", 15)));
    assert_eq!(t.get_node(index_path(3)), Ok(build_node("3", 18)));
    assert_eq!(t.get_node(index_path(7)), Ok(build_node("7", 22)));

    assert_eq!(t.get_node(index_path(9)), Err(Error::IndexOutOfBounds(9)));
}

#[test]
fn nested_variable_list_overlay() {
    // VariableList<VariableList<VariableList<U256, U2>, U2>, U4>
    let t = Shape::variable_list(
        Shape::variable_list(Shape::variable_list(u256(), 2), 2),
        4,
    );

    assert_eq!(
        t.get_node(vec![PathElement::Ident("len".to_string())]),
        Ok(length_node(2))
    );
    assert_eq!(
        t.get_node(vec![PathElement::Index(0), PathElement::Ident("len".to_string())]),
        Ok(length_node(16))
    );
    assert_eq!(
        t.get_node(vec![PathElement::Index(3), PathElement::Ident("len".to_string())]),
        Ok(length_node(22))
    );

    assert_eq!(
        t.get_node(vec![PathElement::Index(0), PathElement::Index(1), PathElement::Index(0)]),
        Ok(build_node("0", 131))
    );
    assert_eq!(
        t.get_node(vec![PathElement::Index(2), PathElement::Index(1), PathElement::Index(0)]),
        Ok(build_node("0", 163))
    );
    assert_eq!(
        t.get_node(vec![PathElement::Index(3), PathElement::Index(0), PathElement::Index(1)]),
        Ok(build_node("1", 176))
    );

    assert_eq!(
        t.get_node(vec![PathElement::Index(4)]),
        Err(Error::IndexOutOfBounds(4))
    );
    assert_eq!(
        t.get_node(vec![PathElement::Index(3), PathElement::Index(2)]),
        Err(Error::IndexOutOfBounds(2))
    );
    assert_eq!(
        t.get_node(vec![PathElement::Index(3), PathElement::Index(1), PathElement::Index(2)]),
        Err(Error::IndexOutOfBounds(2))
    );
}

#[test]
fn simple_fixed_vector() {
    // FixedVector<U256, U8>
    let t = Shape::fixed_vector(u256(), 8);

    assert_eq!(t.height(), 3);

    for i in 7..=14 {
        assert_eq!(
            t.get_node(vec![PathElement::Index(i - 7)]),
            Ok(build_node(&(i - 7).to_string(), i))
        );
    }

    assert_eq!(
        t.get_node(vec![PathElement::Index(8)]),
        Err(Error::IndexOutOfBounds(8))
    );

    assert_eq!(
        t.get_node(ident_path("len")),
        Err(Error::InvalidPath(PathElement::Ident("len".to_string())))
    );
}

#[test]
fn another_simple_fixed_vector() {
    // FixedVector<u8, U32>
    let t = Shape::fixed_vector(Shape::basic(1), 32);

    assert_eq!(t.height(), 0);

    let node = Node::Primitive(
        vec![Primitive::default(); 32]
            .iter()
            .cloned()
            .enumerate()
            .map(|(i, mut p)| {
                p.ident = i.to_string();
                p.index = 0;
                p.size = 1;
                p.offset = i as u8;
                p
            })
            .collect(),
    );

    for i in 0..32 {
        assert_eq!(t.get_node(vec![PathElement::Index(i)]), Ok(node.clone()));
    }
}

#[test]
fn nested_fixed_vector() {
    // FixedVector<FixedVector<FixedVector<U256, U16>, U2>, U1>
    let t = Shape::fixed_vector(Shape::fixed_vector(Shape::fixed_vector(u256(), 16), 2), 1);

    assert_eq!(t.height(), 0);

    assert_eq!(
        t.get_node(index_path(0)),
        Ok(Node::Composite(Composite {
            ident: 0.to_string(),
            index: 0,
            height: 1,
        }))
    );

    for i in 0..2 {
        assert_eq!(
            t.get_node(vec![PathElement::Index(0), PathElement::Index(i)]),
            Ok(Node::Composite(Composite {
                ident: i.to_string(),
                index: i + 1,
                height: 4,
            }))
        );

        for j in 0..16 {
            assert_eq!(
                t.get_node(vec![PathElement::Index(0), PathElement::Index(i), PathElement::Index(j)]),
                Ok(Node::Primitive(vec![Primitive {
                    ident: j.to_string(),
                    index: j + 31 + (i * 16),
                    offset: 0,
                    size: 32,
                }]))
            );
        }
    }

    assert_eq!(
        t.get_node(vec![PathElement::Index(1)]),
        Err(Error::IndexOutOfBounds(1))
    );
    assert_eq!(
        t.get_node(vec![PathElement::Index(0), PathElement::Index(2)]),
        Err(Error::IndexOutOfBounds(2))
    );
    assert_eq!(
        t.get_node(vec![PathElement::Index(0), PathElement::Index(0), PathElement::Index(16)]),
        Err(Error::IndexOutOfBounds(16))
    );
    assert_eq!(
        t.get_node(vec![PathElement::Index(0), PathElement::Index(1), PathElement::Index(16)]),
        Err(Error::IndexOutOfBounds(16))
    );
}
