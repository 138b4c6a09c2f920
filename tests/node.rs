use skiplist::{MaybeTagged, Node};

#[test]
fn test_removed() {
    let mut node = Node::new(1, (), 3);

    assert!(!node.removed());

    assert!(node.set_removed().is_ok());

    assert!(node.removed());

    node.add_ref();

    assert_eq!(node.refs(), 1);

    assert_eq!(node.try_add_ref().unwrap(), 2);
}

#[test]
fn header_fields_are_independent() {
    let mut node = Node::new(5u16, 'x', 32);
    assert_eq!(node.height(), 32);
    assert_eq!(node.refs(), 0);
    assert_eq!(node.try_add_ref(), Err(0));
    assert_eq!(node.add_ref(), 0);
    assert_eq!(node.add_ref(), 1);
    assert_eq!(node.refs(), 2);
    assert_eq!(node.height(), 32);
    assert!(node.set_removed().is_ok());
    assert!(node.set_removed().is_err());
    assert_eq!(node.refs(), 2);
    assert_eq!(node.sub_ref(), 1);
    assert_eq!(node.sub_ref(), 0);
    assert_eq!(node.height(), 32);
    assert!(node.removed());
}

#[test]
fn tag_levels_then_fails_on_second_try() {
    let mut node = Node::new(1u8, (), 4);
    assert_eq!(node.tag_levels(1), Ok(3));
    assert_eq!(node.tag_levels(1), Err(1));
}

#[test]
fn try_remove_and_tag_once() {
    let mut node = Node::new(1u8, (), 2);
    assert!(node.try_remove_and_tag().is_ok());
    assert!(node.removed());
    assert!(node.try_remove_and_tag().is_err());
}

#[test]
fn tagged_link_round_trip() {
    let mut link = MaybeTagged::null();
    assert_eq!(link.load_decomposed(), (0, 0));
    link.store_composed(41, 1);
    assert_eq!(link.load_ptr(), 41);
    assert_eq!(link.load_tag(), 1);
    link.store_ptr(7);
    assert_eq!(link.load_decomposed(), (7, 0));
}

#[test]
fn tagged_compare_exchange() {
    let mut link = MaybeTagged::null();
    link.store_ptr(3);
    assert_eq!(link.compare_exchange(4, 9), Err((3, 0)));
    assert_eq!(link.compare_exchange(3, 9), Ok((3, 0)));
    assert_eq!(link.load_ptr(), 9);
    assert_eq!(link.compare_exchange_with_tag(9, 1, 2, 0), Err((9, 0)));
    assert_eq!(link.compare_exchange_tag(0, 1), Ok(1));
    assert_eq!(link.load_decomposed(), (9, 1));
    assert_eq!(link.compare_exchange_tag(0, 1), Err(1));
    assert_eq!(link.compare_exchange_with_tag(9, 1, 2, 0), Ok((9, 1)));
    assert_eq!(link.load_decomposed(), (2, 0));
}
