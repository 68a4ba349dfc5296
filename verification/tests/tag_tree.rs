use hayro_jpeg2000::j2c::tag_tree::{TagNode, TagTree};
use hayro_jpeg2000::reader::BitReader;

fn real_children(node: &TagNode) -> usize {
    node.children.iter().filter(|c| **c != usize::MAX).count()
}

/// The example from B.10.2, in its extended form as shown in the
/// "JPEG2000 Standard for Image compression" book.
#[test]
fn tag_tree_1() {
    let mut nodes = Vec::new();
    let mut tree = TagTree::new(6, 3, &mut nodes);

    let root = nodes[tree.root];
    let c0 = nodes[root.children[0]];
    let c1 = nodes[root.children[1]];
    assert_eq!(real_children(&root), 2);
    assert_eq!(real_children(&c0), 4);
    assert_eq!(real_children(&nodes[c0.children[0]]), 4);
    assert_eq!(real_children(&nodes[c0.children[1]]), 4);
    assert_eq!(real_children(&nodes[c0.children[2]]), 2);
    assert_eq!(real_children(&nodes[c0.children[3]]), 2);
    assert_eq!(real_children(&c1), 2);
    assert_eq!(real_children(&nodes[c1.children[0]]), 4);
    assert_eq!(real_children(&nodes[c1.children[2]]), 2);

    // The bits 0 1 1 1 1 | 0 0 1 | 1 0 1 | 0 0 1 | 1 0 1 1, most significant
    // bit first.
    let buf = [0x79u8, 0xA6, 0xC0];
    let mut reader = BitReader::new(&buf);

    assert_eq!(tree.read(0, 0, &mut reader, u32::MAX, &mut nodes).unwrap(), 1);
    assert_eq!(tree.read(1, 0, &mut reader, u32::MAX, &mut nodes).unwrap(), 3);
    assert_eq!(tree.read(2, 0, &mut reader, u32::MAX, &mut nodes).unwrap(), 2);
    assert_eq!(tree.read(3, 0, &mut reader, u32::MAX, &mut nodes).unwrap(), 3);
    assert_eq!(tree.read(4, 0, &mut reader, u32::MAX, &mut nodes).unwrap(), 2);
}

/// Inclusion tag tree from Table B.5.
#[test]
fn tag_tree_2() {
    let mut nodes = Vec::new();
    let mut tree = TagTree::new(3, 2, &mut nodes);

    // The bits 1 1 1 | 1 | 0 | 0 | 0.
    let buf = [0xF0u8];
    let mut reader = BitReader::new(&buf);

    let next_layer = 1;

    assert_eq!(tree.read(0, 0, &mut reader, next_layer, &mut nodes).unwrap(), 0);
    assert_eq!(tree.read(1, 0, &mut reader, next_layer, &mut nodes).unwrap(), 0);
    assert_eq!(tree.read(2, 0, &mut reader, next_layer, &mut nodes).unwrap(), 1);
    assert_eq!(tree.read(0, 1, &mut reader, next_layer, &mut nodes).unwrap(), 1);
    assert_eq!(tree.read(1, 1, &mut reader, next_layer, &mut nodes).unwrap(), 1);
    assert_eq!(tree.read(2, 1, &mut reader, next_layer, &mut nodes).unwrap(), 1);
}

/// A value that was decoded below the limit stays the same when it is
/// read again.
#[test]
fn tag_tree_value_is_kept() {
    let mut nodes = Vec::new();
    let mut tree = TagTree::new(1, 1, &mut nodes);
    // 0 0 1: the value 2.
    let buf = [0x20u8];
    let mut reader = BitReader::new(&buf);
    assert_eq!(tree.read(0, 0, &mut reader, u32::MAX, &mut nodes).unwrap(), 2);
    assert_eq!(tree.read(0, 0, &mut reader, u32::MAX, &mut nodes).unwrap(), 2);
}

/// A position whose value has been read is read again from its known
/// nodes: the same value, and no bit of the new data is used.
#[test]
fn tag_tree_read_again_reads_no_bits() {
    let mut nodes = Vec::new();
    let mut tree = TagTree::new(6, 3, &mut nodes);
    let buf = [0x79u8, 0xA6, 0xC0];
    let mut reader = BitReader::new(&buf);
    assert_eq!(tree.read(0, 0, &mut reader, u32::MAX, &mut nodes).unwrap(), 1);

    let empty: [u8; 0] = [];
    let mut other = BitReader::new(&empty);
    assert_eq!(tree.read(0, 0, &mut other, u32::MAX, &mut nodes).unwrap(), 1);
    assert!(other.at_end());
}

/// The value read below one bound is read again, with no bit, below a
/// larger one.
#[test]
fn tag_tree_read_again_with_larger_bound() {
    let mut nodes = Vec::new();
    let mut tree = TagTree::new(6, 3, &mut nodes);
    let buf = [0x79u8, 0xA6, 0xC0];
    let mut reader = BitReader::new(&buf);
    assert_eq!(tree.read(0, 0, &mut reader, 5, &mut nodes).unwrap(), 1);
    let empty: [u8; 0] = [];
    let mut other = BitReader::new(&empty);
    assert_eq!(tree.read(0, 0, &mut other, u32::MAX, &mut nodes).unwrap(), 1);
}
