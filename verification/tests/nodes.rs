use art::{Inner, Node, Node16, Node256, Node4, Node48, NodeHeader, NodeType, NodeV, PREFIX_LEN};
use either::Either;

fn leaf(tag: u64) -> Node<u64> {
    Node::new(Either::Right(NodeV::new(vec![tag as u8], tag)))
}

fn tag_of(node: &Node<u64>) -> u64 {
    match node.deref() {
        Either::Right(leaf) => *leaf.value(),
        Either::Left(_) => panic!("an inner node"),
    }
}

fn empty_inner() -> Node<u64> {
    Node::new(Either::Left(Inner::smallest(NodeHeader::default())))
}

fn kind(node: &Node<u64>) -> NodeType {
    node.node_type()
}

fn inner_of(node: &Node<u64>) -> &Inner<u64> {
    match node.deref() {
        Either::Left(inner) => inner,
        Either::Right(_) => panic!("a terminal value"),
    }
}

fn take_child(node: &mut Node<u64>, key: u8) -> Result<Node<u64>, ()> {
    match node {
        Node::Inner(inner) => inner.remove(key),
        _ => panic!("not an inner node"),
    }
}

#[test]
fn null_handle() {
    let node: Node<u64> = Node::null();
    assert!(node.is_null());
    assert!(!leaf(1).is_null());
    assert!(!empty_inner().is_null());
}

#[test]
fn new_handle_owns_what_it_is_given() {
    let node = Node::new(Either::Right(NodeV::new(vec![1, 2, 3], 9u64)));
    assert_eq!(node.node_type(), NodeType::Value);
    match node.deref() {
        Either::Right(leaf) => {
            assert_eq!(leaf.key(), &vec![1, 2, 3]);
            assert_eq!(*leaf.value(), 9);
        }
        Either::Left(_) => panic!("an inner node"),
    }
    let node: Node<u64> = Node::new(Either::Left(Inner::largest()));
    assert_eq!(node.node_type(), NodeType::Node256);
    assert!(node.deref().is_left());
    assert_eq!(empty_inner().node_type(), NodeType::Node4);
}

#[test]
fn terminal_value_keeps_key_and_value() {
    let leaf = NodeV::new(vec![5, 6], "v");
    assert_eq!(leaf.key(), &vec![5, 6]);
    assert_eq!(*leaf.value(), "v");
    assert!(leaf.has_key(&vec![5, 6]));
    assert!(!leaf.has_key(&vec![5]));
    assert!(!leaf.has_key(&vec![5, 7]));
    assert!(!leaf.has_key(&vec![5, 6, 0]));
    assert_eq!(leaf.into_value(), "v");
}

#[test]
fn header_of_a_short_path() {
    let key: Vec<u8> = vec![9, 1, 2, 3, 4, 9];
    let header = NodeHeader::from_key(&key, 1, 4);
    assert_eq!(header.len(), 4);
    assert_eq!(header.match_inline(&vec![1, 2, 3, 4, 5], 0), 4);
    assert_eq!(header.match_inline(&vec![0, 1, 2, 3, 4], 1), 4);
    assert_eq!(header.match_inline(&vec![1, 2, 0, 4], 0), 2);
    assert_eq!(header.match_inline(&vec![1, 2], 0), 2);
    assert_eq!(header.match_inline(&vec![7], 0), 0);
    assert_eq!(header.match_inline(&vec![1, 2, 3], 3), 0);
}

#[test]
fn header_of_a_long_path_stores_twelve_bytes() {
    assert_eq!(PREFIX_LEN, 12);
    let key: Vec<u8> = (0u8..30).collect();
    let header = NodeHeader::from_key(&key, 2, 20);
    assert_eq!(header.len(), 20);
    let same: Vec<u8> = (2u8..30).collect();
    assert_eq!(header.match_inline(&same, 0), 12);
    let mut other = same.clone();
    other[11] = 0;
    assert_eq!(header.match_inline(&other, 0), 11);
    other = same.clone();
    other[12] = 0;
    assert_eq!(header.match_inline(&other, 0), 12);
}

#[test]
fn default_header_is_empty() {
    let header = NodeHeader::default();
    assert_eq!(header.len(), 0);
    assert_eq!(header.match_inline(&vec![1, 2, 3], 0), 0);
}

#[test]
fn node4_keeps_children_by_key() {
    let mut node: Node4<u64> = Node4::default();
    assert_eq!(node.len(), 0);
    assert!(!node.is_full());
    assert!(!node.is_shrinkable());
    assert_eq!(node.first_key(), None);
    assert!(node.insert(30, leaf(30)).is_ok());
    assert!(node.insert(10, leaf(10)).is_ok());
    assert!(node.insert(20, leaf(20)).is_ok());
    assert_eq!(node.len(), 3);
    assert_eq!(node.first_key(), Some(10));
    assert_eq!(node.lookup(10).map(tag_of), Some(10));
    assert_eq!(node.lookup(20).map(tag_of), Some(20));
    assert_eq!(node.lookup(30).map(tag_of), Some(30));
    assert!(node.lookup(15).is_none());
    assert!(node.insert(40, leaf(40)).is_ok());
    assert!(node.is_full());
    assert_eq!(node.lookup(40).map(tag_of), Some(40));
}

#[test]
fn node4_insert_rejects() {
    let mut node: Node4<u64> = Node4::default();
    assert!(node.insert(1, leaf(1)).is_ok());
    match node.insert(1, leaf(99)) {
        Err(back) => assert_eq!(tag_of(&back), 99),
        Ok(()) => panic!("a second child for one byte"),
    }
    assert_eq!(node.lookup(1).map(tag_of), Some(1));
    match node.insert(2, Node::null()) {
        Err(back) => assert!(back.is_null()),
        Ok(()) => panic!("an absent child"),
    }
    assert!(node.lookup(2).is_none());
    assert!(node.insert(2, leaf(2)).is_ok());
    assert!(node.insert(3, leaf(3)).is_ok());
    assert!(node.insert(4, leaf(4)).is_ok());
    match node.insert(5, leaf(5)) {
        Err(back) => assert_eq!(tag_of(&back), 5),
        Ok(()) => panic!("a fifth child"),
    }
    assert_eq!(node.len(), 4);
    assert!(node.lookup(5).is_none());
}

#[test]
fn node4_update_and_remove() {
    let mut node: Node4<u64> = Node4::default();
    assert!(node.insert(1, leaf(1)).is_ok());
    assert!(node.insert(2, leaf(2)).is_ok());
    assert!(node.insert(3, leaf(3)).is_ok());
    match node.update(2, leaf(22)) {
        Ok(before) => assert_eq!(tag_of(&before), 2),
        Err(_) => panic!("no child to replace"),
    }
    assert_eq!(node.lookup(2).map(tag_of), Some(22));
    match node.update(9, leaf(9)) {
        Err(back) => assert_eq!(tag_of(&back), 9),
        Ok(_) => panic!("replaced a child that is not there"),
    }
    assert!(node.update(1, Node::null()).is_err());
    assert_eq!(node.lookup(1).map(tag_of), Some(1));
    assert_eq!(node.remove(2).map(|n| tag_of(&n)), Ok(22));
    assert_eq!(node.len(), 2);
    assert!(node.lookup(2).is_none());
    assert_eq!(node.lookup(1).map(tag_of), Some(1));
    assert_eq!(node.lookup(3).map(tag_of), Some(3));
    assert!(node.remove(2).is_err());
    assert_eq!(node.remove(1).map(|n| tag_of(&n)), Ok(1));
    assert_eq!(node.first_key(), Some(3));
    assert_eq!(node.remove(3).map(|n| tag_of(&n)), Ok(3));
    assert_eq!(node.first_key(), None);
    assert_eq!(node.len(), 0);
}

#[test]
fn node4_lookup_mut_changes_the_child_in_place() {
    let mut node: Node4<u64> = Node4::default();
    assert!(node.insert(1, leaf(1)).is_ok());
    assert!(node.insert(2, leaf(2)).is_ok());
    match node.lookup_mut(2) {
        Some(child) => *child = leaf(20),
        None => panic!("no child"),
    }
    assert!(node.lookup_mut(3).is_none());
    assert_eq!(node.lookup(1).map(tag_of), Some(1));
    assert_eq!(node.lookup(2).map(tag_of), Some(20));
}

#[test]
fn node16_is_shrinkable_up_to_four_children() {
    let mut node: Node16<u64> = Node16::default();
    for b in 0u8..16 {
        assert!(node.insert(255 - b, leaf(b as u64)).is_ok());
        assert_eq!(node.is_shrinkable(), b < 4);
        assert_eq!(node.is_full(), b == 15);
    }
    assert!(node.insert(0, leaf(0)).is_err());
    for b in 0u8..16 {
        assert_eq!(node.lookup(255 - b).map(tag_of), Some(b as u64));
    }
    assert_eq!(node.first_key(), Some(240));
}

#[test]
fn node48_keeps_children_compact() {
    let mut node: Node48<u64> = Node48::default();
    assert_eq!(node.first_key(), None);
    for b in 0u8..48 {
        assert!(node.insert(b.wrapping_mul(5), leaf(b as u64)).is_ok());
        assert_eq!(node.len(), b as usize + 1);
        assert_eq!(node.is_shrinkable(), b < 16);
        assert_eq!(node.is_full(), b == 47);
    }
    assert!(node.insert(1, leaf(1)).is_err());
    assert!(node.insert(0, leaf(1)).is_err());
    for b in 0u8..48 {
        assert_eq!(node.lookup(b.wrapping_mul(5)).map(tag_of), Some(b as u64));
    }
    assert!(node.lookup(1).is_none());
    assert_eq!(node.first_key(), Some(0));
    for b in (0u8..48).step_by(2) {
        assert_eq!(node.remove(b.wrapping_mul(5)).map(|n| tag_of(&n)), Ok(b as u64));
        assert!(node.remove(b.wrapping_mul(5)).is_err());
    }
    assert_eq!(node.len(), 24);
    for b in 0u8..48 {
        let found = node.lookup(b.wrapping_mul(5)).map(tag_of);
        if b % 2 == 0 {
            assert_eq!(found, None);
        } else {
            assert_eq!(found, Some(b as u64));
        }
    }
    assert_eq!(node.first_key(), Some(5));
    for b in (0u8..48).step_by(2) {
        assert!(node.insert(b.wrapping_mul(5), leaf(100 + b as u64)).is_ok());
    }
    for b in 0u8..48 {
        let expected = if b % 2 == 0 { 100 + b as u64 } else { b as u64 };
        assert_eq!(node.lookup(b.wrapping_mul(5)).map(tag_of), Some(expected));
    }
}

#[test]
fn node48_update_and_lookup_mut() {
    let mut node: Node48<u64> = Node48::default();
    assert!(node.insert(200, leaf(1)).is_ok());
    assert!(node.insert(100, leaf(2)).is_ok());
    assert!(node.insert(7, Node::null()).is_err());
    match node.update(200, leaf(3)) {
        Ok(before) => assert_eq!(tag_of(&before), 1),
        Err(_) => panic!("no child to replace"),
    }
    assert!(node.update(201, leaf(4)).is_err());
    assert!(node.update(100, Node::null()).is_err());
    match node.lookup_mut(100) {
        Some(child) => *child = leaf(5),
        None => panic!("no child"),
    }
    assert!(node.lookup_mut(101).is_none());
    assert_eq!(node.lookup(200).map(tag_of), Some(3));
    assert_eq!(node.lookup(100).map(tag_of), Some(5));
}

#[test]
fn node256_counts_its_children() {
    let mut node: Node256<u64> = Node256::default();
    assert_eq!(node.len(), 0);
    assert_eq!(node.first_key(), None);
    assert!(node.is_shrinkable());
    for b in 0u16..256 {
        assert!(node.insert(b as u8, leaf(b as u64)).is_ok());
        assert_eq!(node.len(), b as usize + 1);
        assert_eq!(node.is_shrinkable(), b < 48);
        assert_eq!(node.is_full(), b == 255);
    }
    assert!(node.insert(3, leaf(3)).is_err());
    for b in 0u16..256 {
        assert_eq!(node.lookup(b as u8).map(tag_of), Some(b as u64));
    }
    assert_eq!(node.remove(0).map(|n| tag_of(&n)), Ok(0));
    assert!(node.remove(0).is_err());
    assert_eq!(node.len(), 255);
    assert_eq!(node.first_key(), Some(1));
    assert!(node.lookup(0).is_none());
    assert!(node.insert(0, Node::null()).is_err());
    assert_eq!(node.len(), 255);
    match node.update(1, leaf(1000)) {
        Ok(before) => assert_eq!(tag_of(&before), 1),
        Err(_) => panic!("no child to replace"),
    }
    assert!(node.update(0, leaf(0)).is_err());
    assert!(node.update(1, Node::null()).is_err());
    match node.lookup_mut(2) {
        Some(child) => *child = leaf(2000),
        None => panic!("no child"),
    }
    assert!(node.lookup_mut(0).is_none());
    assert_eq!(node.lookup(1).map(tag_of), Some(1000));
    assert_eq!(node.lookup(2).map(tag_of), Some(2000));
    assert_eq!(node.len(), 255);
}

#[test]
fn conversions_keep_every_child() {
    let mut four: Node4<u64> = Node4::default();
    four.set_header(NodeHeader::from_key(&vec![1, 2, 3], 0, 3));
    let _ = four.set_own(Some(Box::new(NodeV::new(vec![1, 2, 3], 77))));
    for b in [9u8, 3, 200, 0] {
        assert!(four.insert(b, leaf(b as u64)).is_ok());
    }
    let sixteen = Node16::from_node4(four);
    assert_eq!(sixteen.len(), 4);
    assert_eq!(sixteen.header().len(), 3);
    assert_eq!(sixteen.own_value().map(|l| *l.value()), Some(77));
    for b in [9u8, 3, 200, 0] {
        assert_eq!(sixteen.lookup(b).map(tag_of), Some(b as u64));
    }
    let forty_eight = Node48::from_node16(sixteen);
    assert_eq!(forty_eight.len(), 4);
    assert_eq!(forty_eight.header().len(), 3);
    assert_eq!(forty_eight.own_value().map(|l| *l.value()), Some(77));
    for b in [9u8, 3, 200, 0] {
        assert_eq!(forty_eight.lookup(b).map(tag_of), Some(b as u64));
    }
    assert!(forty_eight.lookup(1).is_none());
    let largest = Node256::from_node48(forty_eight);
    assert_eq!(largest.len(), 4);
    assert_eq!(largest.header().len(), 3);
    assert_eq!(largest.own_value().map(|l| *l.value()), Some(77));
    for b in [9u8, 3, 200, 0] {
        assert_eq!(largest.lookup(b).map(tag_of), Some(b as u64));
    }
    assert!(largest.lookup(1).is_none());
    let forty_eight = Node48::from_node256(largest);
    assert_eq!(forty_eight.len(), 4);
    assert_eq!(forty_eight.first_key(), Some(0));
    for b in [9u8, 3, 200, 0] {
        assert_eq!(forty_eight.lookup(b).map(tag_of), Some(b as u64));
    }
    let sixteen = Node16::from_node48(forty_eight);
    assert_eq!(sixteen.len(), 4);
    assert_eq!(sixteen.first_key(), Some(0));
    for b in [9u8, 3, 200, 0] {
        assert_eq!(sixteen.lookup(b).map(tag_of), Some(b as u64));
    }
    let mut four = Node4::from_node16(sixteen);
    assert_eq!(four.len(), 4);
    assert_eq!(four.header().len(), 3);
    assert_eq!(four.own_value().map(|l| *l.value()), Some(77));
    for b in [9u8, 3, 200, 0] {
        assert_eq!(four.lookup(b).map(tag_of), Some(b as u64));
    }
    assert_eq!(four.remove(0).map(|n| tag_of(&n)), Ok(0));
    assert_eq!(four.first_key(), Some(3));
}

#[test]
fn five_children_grow_the_smallest_shape() {
    let mut node = empty_inner();
    for b in 0u8..4 {
        assert!(node.insert_child(b, leaf(b as u64)).is_ok());
        assert_eq!(kind(&node), NodeType::Node4);
    }
    assert!(node.insert_child(4, leaf(4)).is_ok());
    assert_eq!(kind(&node), NodeType::Node16);
    assert_eq!(inner_of(&node).len(), 5);
    for b in 0u8..5 {
        assert_eq!(inner_of(&node).lookup(b).map(tag_of), Some(b as u64));
    }
}

#[test]
fn shapes_step_up_one_at_a_time() {
    let mut node = empty_inner();
    for b in 0u16..256 {
        assert!(node.insert_child(b as u8, leaf(b as u64)).is_ok());
        let expected = if b < 4 {
            NodeType::Node4
        } else if b < 16 {
            NodeType::Node16
        } else if b < 48 {
            NodeType::Node48
        } else {
            NodeType::Node256
        };
        assert_eq!(kind(&node), expected);
        assert_eq!(inner_of(&node).len(), b as usize + 1);
        if b == 4 || b == 16 || b == 48 || b == 255 {
            for seen in 0..=b {
                assert_eq!(inner_of(&node).lookup(seen as u8).map(tag_of), Some(seen as u64));
            }
        }
    }
    match node.insert_child(7, leaf(7000)) {
        Err(back) => assert_eq!(tag_of(&back), 7000),
        Ok(()) => panic!("a second child for one byte"),
    }
    assert!(node.insert_child(8, Node::null()).is_err());
    assert_eq!(kind(&node), NodeType::Node256);
    assert_eq!(inner_of(&node).lookup(7).map(tag_of), Some(7));
}

#[test]
fn extend_leaves_a_node_with_room_alone() {
    let mut node = empty_inner();
    assert!(node.insert_child(1, leaf(1)).is_ok());
    node.extend();
    assert_eq!(kind(&node), NodeType::Node4);
    for b in 2u8..5 {
        assert!(node.insert_child(b, leaf(b as u64)).is_ok());
    }
    assert_eq!(kind(&node), NodeType::Node4);
    node.extend();
    assert_eq!(kind(&node), NodeType::Node16);
    node.extend();
    assert_eq!(kind(&node), NodeType::Node16);
    for b in 1u8..5 {
        assert_eq!(inner_of(&node).lookup(b).map(tag_of), Some(b as u64));
    }
    let mut value = leaf(3);
    value.extend();
    value.shrink();
    assert_eq!(tag_of(&value), 3);
    let mut absent: Node<u64> = Node::null();
    absent.extend();
    absent.shrink();
    assert!(absent.is_null());
}

#[test]
fn largest_shape_shrinks_at_forty_eight_children() {
    let mut node = empty_inner();
    for b in 0u8..60 {
        assert!(node.insert_child(b, leaf(b as u64)).is_ok());
    }
    assert_eq!(kind(&node), NodeType::Node256);
    for b in 0u8..11 {
        assert_eq!(take_child(&mut node, b).map(|n| tag_of(&n)), Ok(b as u64));
        node.shrink();
        assert_eq!(kind(&node), NodeType::Node256);
    }
    assert_eq!(inner_of(&node).len(), 49);
    assert_eq!(take_child(&mut node, 11).map(|n| tag_of(&n)), Ok(11));
    assert_eq!(inner_of(&node).len(), 48);
    node.shrink();
    assert_eq!(kind(&node), NodeType::Node48);
    assert_eq!(inner_of(&node).len(), 48);
    for b in 0u8..60 {
        let found = inner_of(&node).lookup(b).map(tag_of);
        if b < 12 {
            assert_eq!(found, None);
        } else {
            assert_eq!(found, Some(b as u64));
        }
    }
}

#[test]
fn shapes_step_down_one_at_a_time() {
    let mut node = empty_inner();
    for b in 0u8..60 {
        assert!(node.insert_child(b, leaf(b as u64)).is_ok());
    }
    for b in 0u8..59 {
        assert_eq!(take_child(&mut node, b).map(|n| tag_of(&n)), Ok(b as u64));
        node.shrink();
        let left = 59 - b as usize;
        let expected = if left > 48 {
            NodeType::Node256
        } else if left > 16 {
            NodeType::Node48
        } else if left > 4 {
            NodeType::Node16
        } else {
            NodeType::Node4
        };
        assert_eq!(kind(&node), expected);
        assert_eq!(inner_of(&node).len(), left);
        if left == 48 || left == 16 || left == 4 || left == 1 {
            for rest in 0u8..60 {
                let found = inner_of(&node).lookup(rest).map(tag_of);
                if rest <= b {
                    assert_eq!(found, None);
                } else {
                    assert_eq!(found, Some(rest as u64));
                }
            }
        }
    }
    node.shrink();
    assert_eq!(kind(&node), NodeType::Node4);
}

#[test]
fn shrink_moves_one_step_only() {
    let mut node: Node<u64> = Node::new(Either::Left(Inner::largest()));
    assert!(node.insert_child(1, leaf(1)).is_ok());
    node.shrink();
    assert_eq!(kind(&node), NodeType::Node48);
    node.shrink();
    assert_eq!(kind(&node), NodeType::Node16);
    node.shrink();
    assert_eq!(kind(&node), NodeType::Node4);
    node.shrink();
    assert_eq!(kind(&node), NodeType::Node4);
    assert_eq!(inner_of(&node).lookup(1).map(tag_of), Some(1));
}

#[test]
fn inner_grow_and_shrink_keep_header_and_own_value() {
    let mut inner: Inner<u64> = Inner::smallest(NodeHeader::from_key(&vec![4, 5], 0, 2));
    let _ = inner.set_own(Some(Box::new(NodeV::new(vec![4, 5], 45))));
    assert!(inner.insert(1, leaf(1)).is_ok());
    assert!(!inner.is_full());
    assert!(!inner.is_shrinkable());
    let inner = inner.grow();
    assert_eq!(inner.node_type(), NodeType::Node16);
    assert!(inner.is_shrinkable());
    let inner = inner.grow();
    assert_eq!(inner.node_type(), NodeType::Node48);
    let inner = inner.grow();
    assert_eq!(inner.node_type(), NodeType::Node256);
    assert_eq!(inner.header().len(), 2);
    assert_eq!(inner.own_value().map(|l| *l.value()), Some(45));
    assert_eq!(inner.lookup(1).map(tag_of), Some(1));
    assert_eq!(inner.first_key(), Some(1));
    let inner = inner.shrink();
    assert_eq!(inner.node_type(), NodeType::Node48);
    let inner = inner.shrink();
    assert_eq!(inner.node_type(), NodeType::Node16);
    let mut inner = inner.shrink();
    assert_eq!(inner.node_type(), NodeType::Node4);
    assert_eq!(inner.header().len(), 2);
    assert_eq!(inner.lookup(1).map(tag_of), Some(1));
    match inner.set_own(None) {
        Some(leaf) => assert_eq!(leaf.into_value(), 45),
        None => panic!("no own value"),
    }
    assert!(inner.own_value().is_none());
    match inner.update(1, leaf(11)) {
        Ok(before) => assert_eq!(tag_of(&before), 1),
        Err(_) => panic!("no child to replace"),
    }
    match inner.lookup_mut(1) {
        Some(child) => assert_eq!(tag_of(child), 11),
        None => panic!("no child"),
    }
    inner.set_header(NodeHeader::default());
    assert_eq!(inner.header().len(), 0);
}

#[test]
fn deref_mut_reaches_what_the_handle_owns() {
    let mut node = empty_inner();
    match node.deref_mut() {
        Either::Left(inner) => assert!(inner.insert(3, leaf(3)).is_ok()),
        Either::Right(_) => panic!("a terminal value"),
    }
    assert_eq!(inner_of(&node).lookup(3).map(tag_of), Some(3));
    let mut value = leaf(4);
    assert!(value.deref_mut().is_right());
    assert!(value.deref().is_right());
    assert!(node.deref().is_left());
}

#[test]
fn node48_from_node256_packs_by_ascending_byte() {
    let mut wide: Node256<u64> = Node256::default();
    for b in [200u8, 3, 77, 255, 0, 128] {
        assert!(wide.insert(b, leaf(b as u64)).is_ok());
    }
    let node = Node48::from_node256(wide);
    assert_eq!(node.len(), 6);
    let order = [0u8, 3, 77, 128, 200, 255];
    for (at, b) in order.iter().enumerate() {
        assert_eq!(node.position(*b), Some(at));
        assert_eq!(tag_of(&node.children()[at]), *b as u64);
    }
    assert_eq!(node.position(1), None);
    assert_eq!(node.children().len(), 6);
}

#[test]
fn node48_from_node16_keeps_the_sorted_order() {
    let mut small: Node16<u64> = Node16::default();
    for b in [9u8, 250, 1, 40] {
        assert!(small.insert(b, leaf(b as u64)).is_ok());
    }
    assert_eq!(small.keys(), &vec![1u8, 9, 40, 250]);
    let tags: Vec<u64> = small.children().iter().map(tag_of).collect();
    assert_eq!(tags, vec![1, 9, 40, 250]);
    let node = Node48::from_node16(small);
    for (at, b) in [1u8, 9, 40, 250].iter().enumerate() {
        assert_eq!(node.position(*b), Some(at));
        assert_eq!(tag_of(&node.children()[at]), *b as u64);
    }
}

#[test]
fn node48_insert_appends_and_remove_closes_the_gap() {
    let mut node: Node48<u64> = Node48::default();
    for (at, b) in [50u8, 10, 30].iter().enumerate() {
        assert!(node.insert(*b, leaf(*b as u64)).is_ok());
        assert_eq!(node.position(*b), Some(at));
    }
    assert!(node.insert(10, leaf(99)).is_err());
    assert_eq!(node.position(10), Some(1));
    assert_eq!(node.remove(50).map(|n| tag_of(&n)), Ok(50));
    assert_eq!(node.position(50), None);
    assert_eq!(node.position(10), Some(0));
    assert_eq!(node.position(30), Some(1));
    assert!(node.insert(20, leaf(20)).is_ok());
    assert_eq!(node.position(20), Some(2));
    let tags: Vec<u64> = node.children().iter().map(tag_of).collect();
    assert_eq!(tags, vec![10, 30, 20]);
    assert!(node.remove(50).is_err());
    assert_eq!(node.position(10), Some(0));
}

#[test]
fn sorted_node_from_node48_has_ascending_keys() {
    let mut node: Node48<u64> = Node48::default();
    for b in [50u8, 10, 30, 255, 0] {
        assert!(node.insert(b, leaf(b as u64)).is_ok());
    }
    let small = Node16::from_node48(node);
    assert_eq!(small.keys(), &vec![0u8, 10, 30, 50, 255]);
    let tags: Vec<u64> = small.children().iter().map(tag_of).collect();
    assert_eq!(tags, vec![0, 10, 30, 50, 255]);
    let mut small = small;
    assert!(small.remove(30).is_ok());
    assert_eq!(small.keys(), &vec![0u8, 10, 50, 255]);
    let smallest = Node4::from_node16(small);
    assert_eq!(smallest.keys(), &vec![0u8, 10, 50, 255]);
}

#[test]
fn prefix_match_on_a_node_that_stands_alone() {
    let mut node: Node<u64> = Node::new(Either::Left(Inner::smallest(NodeHeader::from_key(
        &vec![5, 6, 7],
        0,
        3,
    ))));
    assert_eq!(Node::prefix_match(&vec![5, 6, 7, 8], &node, 0), Ok(()));
    assert_eq!(Node::prefix_match(&vec![5, 6, 9, 8], &node, 0), Err(2));
    assert_eq!(Node::prefix_match(&vec![1, 5, 6, 7], &node, 1), Ok(()));
    assert_eq!(Node::prefix_match(&vec![5, 6], &node, 0), Err(2));
    assert!(node.insert_child(1, leaf(1)).is_ok());
    assert_eq!(Node::prefix_match(&vec![5, 6, 7], &node, 0), Ok(()));
}
