use heliosdb_lite::art_node::{ArtNode, LeafNode, Node16, Node256, Node4, MAX_PREFIX_LEN};

#[test]
fn test_node4_basic() {
    let mut node = Node4::new();

    assert!(node.add_child(b'a', ArtNode::Leaf(LeafNode::new(vec![b'a'], 1))));
    assert!(node.add_child(b'b', ArtNode::Leaf(LeafNode::new(vec![b'b'], 2))));
    assert!(node.add_child(b'c', ArtNode::Leaf(LeafNode::new(vec![b'c'], 3))));
    assert!(node.add_child(b'd', ArtNode::Leaf(LeafNode::new(vec![b'd'], 4))));

    assert!(node.is_full());
    assert!(!node.add_child(b'e', ArtNode::Leaf(LeafNode::new(vec![b'e'], 5))));

    assert!(node.get_child(b'a').is_some());
    assert!(node.get_child(b'b').is_some());
    assert!(node.get_child(b'e').is_none());

    let removed = node.remove_child(b'b');
    assert!(removed.is_some());
    assert!(node.get_child(b'b').is_none());
    assert_eq!(node.header.num_children, 3);
}

#[test]
fn test_node4_to_node16_growth() {
    let mut node = Node4::new();
    node.add_child(b'a', ArtNode::Leaf(LeafNode::new(vec![b'a'], 1)));
    node.add_child(b'b', ArtNode::Leaf(LeafNode::new(vec![b'b'], 2)));
    node.add_child(b'c', ArtNode::Leaf(LeafNode::new(vec![b'c'], 3)));
    node.add_child(b'd', ArtNode::Leaf(LeafNode::new(vec![b'd'], 4)));

    let node16 = node.grow();
    assert_eq!(node16.header.num_children, 4);
    assert!(node16.get_child(b'a').is_some());
    assert!(node16.get_child(b'd').is_some());
}

#[test]
fn test_node256_direct_lookup() {
    let mut node = Node256::new();

    for i in 0..100 {
        node.add_child(i, ArtNode::Leaf(LeafNode::new(vec![i], i as u64)));
    }

    assert_eq!(node.header.num_children, 100);

    for i in 0..100 {
        assert!(node.get_child(i).is_some());
    }
    assert!(node.get_child(200).is_none());
}

#[test]
fn test_prefix_compression() {
    let node = Node4::with_prefix(b"prefix");
    assert_eq!(node.header.prefix_len, 6);
    assert_eq!(node.header.get_prefix(), b"prefix");

    let long_prefix = b"this_is_a_very_long_prefix_that_exceeds_max";
    let node2 = Node4::with_prefix(long_prefix);
    assert_eq!(node2.header.prefix_len, long_prefix.len() as u32);
    assert_eq!(node2.header.get_prefix(), &long_prefix[..MAX_PREFIX_LEN]);
}

#[test]
fn node_growth_chain_keeps_children() {
    let mut n4 = Node4::new();
    for b in 0..4u8 {
        assert!(n4.add_child(b, ArtNode::Leaf(LeafNode::new(vec![b], b as u64))));
    }
    let mut n16 = n4.grow();
    for b in 4..16u8 {
        assert!(n16.add_child(b, ArtNode::Leaf(LeafNode::new(vec![b], b as u64))));
    }
    assert!(n16.is_full());
    let mut n48 = n16.grow();
    for b in 16..48u8 {
        assert!(n48.add_child(b, ArtNode::Leaf(LeafNode::new(vec![b], b as u64))));
    }
    let n256 = n48.grow();
    assert_eq!(n256.header.num_children, 48);
    for b in 0..48u8 {
        assert!(n256.get_child(b).is_some());
    }
    assert!(n256.get_child(48).is_none());
}

#[test]
fn leaf_values() {
    let mut leaf = LeafNode::new(b"k".to_vec(), 1);
    assert_eq!(leaf.value(), 1);
    leaf.push_value(2);
    assert_eq!(leaf.values_count(), 2);
    assert_eq!(leaf.all_values(), vec![1, 2]);
    assert!(leaf.matches(b"k"));
    assert!(!leaf.matches(b"kk"));
}

#[test]
fn node16_keys_stay_sorted() {
    let mut n = Node16::new();
    assert!(n.add_child(b'c', ArtNode::Leaf(LeafNode::new(vec![b'c'], 1))));
    assert!(n.add_child(b'a', ArtNode::Leaf(LeafNode::new(vec![b'a'], 2))));
    assert!(n.add_child(b'b', ArtNode::Leaf(LeafNode::new(vec![b'b'], 3))));
    assert_eq!(&n.keys[..3], &[b'a', b'b', b'c']);
    assert!(n.get_child(b'a').is_some());
    assert!(n.get_child(b'c').is_some());
    assert!(n.remove_child(b'a').is_some());
    assert_eq!(&n.keys[..2], &[b'b', b'c']);
    assert!(n.get_child(b'c').is_some());
    assert!(n.get_child(b'a').is_none());
}

#[test]
fn node4_grows_into_sorted_node16() {
    let mut n = Node4::new();
    for (i, b) in [b'd', b'a', b'c', b'b'].iter().enumerate() {
        assert!(n.add_child(*b, ArtNode::Leaf(LeafNode::new(vec![*b], i as u64))));
    }
    let g = n.grow();
    assert_eq!(&g.keys[..4], &[b'a', b'b', b'c', b'd']);
    assert!(g.get_child(b'd').is_some());
}
