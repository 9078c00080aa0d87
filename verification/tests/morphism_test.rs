use matchbox::morphism::Morphism;

#[test]
fn test_insert_and_lookup() {
    let mut m = Morphism::new();
    assert_eq!(m.map_node(0), None);
    m.insert_node(0, 5);
    m.insert_edge(2, 7);
    assert_eq!(m.map_node(0), Some(5));
    assert_eq!(m.map_node(1), None);
    assert_eq!(m.map_edge(2), Some(7));
    assert_eq!(m.map_edge(0), None);
    m.insert_node(0, 6);
    assert_eq!(m.map_node(0), Some(6));
}

#[test]
fn test_compose() {
    let mut inner = Morphism::new();
    inner.insert_node(0, 1);
    inner.insert_node(3, 4);
    inner.insert_edge(0, 2);
    let mut outer = Morphism::new();
    outer.insert_node(1, 7);
    outer.insert_edge(2, 9);
    let composed = outer.compose(&inner);
    assert_eq!(composed.map_node(0), Some(7));
    // 3 maps to 4, which the outer morphism leaves unmapped.
    assert_eq!(composed.map_node(3), None);
    assert_eq!(composed.map_edge(0), Some(9));
}

#[test]
fn test_invert_injective() {
    let mut m = Morphism::new();
    m.insert_node(0, 5);
    m.insert_node(1, 3);
    m.insert_edge(4, 2);
    let inv = m.invert();
    assert_eq!(inv.map_node(5), Some(0));
    assert_eq!(inv.map_node(3), Some(1));
    assert_eq!(inv.map_node(0), None);
    assert_eq!(inv.map_edge(2), Some(4));
}

#[test]
fn test_invert_last_write_wins() {
    let mut m = Morphism::new();
    m.insert_node(0, 5);
    m.insert_node(1, 5);
    let inv = m.invert();
    // Sources are visited in increasing order, so the larger one wins.
    assert_eq!(inv.map_node(5), Some(1));
}
