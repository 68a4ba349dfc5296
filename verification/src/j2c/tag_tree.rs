//! The tag tree, described in Section B.10.2.
//!
//! Tag trees are quad trees where each leaf stores an integer value.
//! Each intermediate node stores the smallest value of all of its children.
//! For example, if a node stores the value 3, it means that all children
//! have a value of 3 or higher. The root node therefore stores the smallest
//! values across all children.
use crate::math::{ceil_log2, next_power_of_two_log2};
use crate::reader::{stuffed_bits, BitReader};
use vstd::arithmetic::power2::pow2;
use vstd::prelude::*;

verus! {

/// A node of a tag tree. The nodes of all trees of a tile live in one
/// vector and refer to their children by index.
#[derive(Clone, Copy)]
pub struct TagNode {
    /// The width of the area covered by the node.
    ///
    /// For leaf nodes, this value is always 1. In some cases, the width might
    /// be 0, in which case the leaf node doesn't actually "exist" and is just
    /// a dummy node.
    pub width: u32,
    /// The height of the area covered by the node.
    pub height: u32,
    /// The actual value stored in the node. Only final once `initialized`
    /// is set to `true`.
    pub value: u32,
    /// Whether the node has been fully initialized. The tag tree is not
    /// stored in its complete form in the JP2 file, but is instead built
    /// up incrementally, each packet contributing the information of the
    /// tag tree. The node is therefore only initialized with its actual
    /// value once we cross it the first time.
    pub initialized: bool,
    /// The level inside the tree. Zero indicates that the given node is
    /// a leaf node, otherwise the level is > 0. The root node has the highest
    /// level.
    pub level: u16,
    /// The indices of the children of the node; `usize::MAX` marks a child
    /// that does not exist.
    pub children: [usize; 4],
}

/// The width of the top-left child of a node at `level` covering `width`
/// columns.
pub open spec fn top_left_spec(level: int, extent: int) -> int {
    if level <= 0 {
        0
    } else if pow2((level - 1) as nat) <= extent {
        pow2((level - 1) as nat) as int
    } else {
        extent
    }
}

/// The width and height of child `c` of node `n`.
pub open spec fn child_size(n: TagNode, c: int) -> (int, int) {
    let tlw = top_left_spec(n.level as int, n.width as int);
    let tlh = top_left_spec(n.level as int, n.height as int);
    let w: int = if c == 0 || c == 2 { tlw } else { n.width - tlw };
    let h: int = if c == 0 || c == 1 { tlh } else { n.height - tlh };
    (w, h)
}

/// The node `n` and its subtree in `nodes` form a tag tree: the node
/// covers at most `2^level` by `2^level` positions, a leaf covers at most
/// one, and each child that covers positions sits in `nodes` one level
/// lower with the size that `child_size` gives, while the others are
/// marked absent.
pub open spec fn node_ok(nodes: Seq<TagNode>, n: TagNode) -> bool
    decreases n.level,
{
    &&& n.level <= 32
    &&& n.width <= pow2(n.level as nat)
    &&& n.height <= pow2(n.level as nat)
    &&& if n.level == 0 {
        n.width <= 1 && n.height <= 1
    } else {
        forall|c: int|
            0 <= c < 4 ==> {
                let (w, h) = #[trigger] child_size(n, c);
                if w > 0 && h > 0 {
                    &&& n.children[c] < nodes.len()
                    &&& nodes[n.children[c] as int].level == n.level - 1
                    &&& nodes[n.children[c] as int].width == w
                    &&& nodes[n.children[c] as int].height == h
                    &&& node_ok(nodes, nodes[n.children[c] as int])
                } else {
                    n.children[c] == usize::MAX
                }
            }
    }
}

/// Two node vectors have the same tree shape: only values and
/// initialization flags may differ.
pub open spec fn same_shape(a: Seq<TagNode>, b: Seq<TagNode>) -> bool {
    &&& a.len() == b.len()
    &&& forall|i: int|
        0 <= i < a.len() ==> (#[trigger] a[i]).width == b[i].width && a[i].height == b[i].height && a[i].level
            == b[i].level && a[i].children == b[i].children
}

/// `a` is a prefix of `b`.
pub open spec fn extends(a: Seq<TagNode>, b: Seq<TagNode>) -> bool {
    a.len() <= b.len() && forall|i: int| 0 <= i < a.len() ==> #[trigger] a[i] == b[i]
}

/// A tree stays well-formed when more nodes are added after it.
pub proof fn lemma_node_ok_extends(a: Seq<TagNode>, b: Seq<TagNode>, n: TagNode)
    requires
        node_ok(a, n),
        extends(a, b),
    ensures
        node_ok(b, n),
    decreases n.level,
{
    if n.level > 0 {
        assert forall|c: int| 0 <= c < 4 implies {
            let (w, h) = #[trigger] child_size(n, c);
            if w > 0 && h > 0 {
                &&& n.children[c] < b.len()
                &&& b[n.children[c] as int].level == n.level - 1
                &&& b[n.children[c] as int].width == w
                &&& b[n.children[c] as int].height == h
                &&& node_ok(b, b[n.children[c] as int])
            } else {
                n.children[c] == usize::MAX
            }
        } by {
            let (w, h) = child_size(n, c);
            if w > 0 && h > 0 {
                assert(a[n.children[c] as int] == b[n.children[c] as int]);
                lemma_node_ok_extends(a, b, a[n.children[c] as int]);
            }
        }
    }
}

/// Whether a tree is well-formed depends only on its shape.
pub proof fn lemma_node_ok_shape(a: Seq<TagNode>, b: Seq<TagNode>, n: TagNode, m: TagNode)
    requires
        node_ok(a, n),
        same_shape(a, b),
        n.width == m.width,
        n.height == m.height,
        n.level == m.level,
        n.children == m.children,
    ensures
        node_ok(b, m),
    decreases n.level,
{
    if n.level > 0 {
        assert forall|c: int| 0 <= c < 4 implies {
            let (w, h) = #[trigger] child_size(m, c);
            if w > 0 && h > 0 {
                &&& m.children[c] < b.len()
                &&& b[m.children[c] as int].level == m.level - 1
                &&& b[m.children[c] as int].width == w
                &&& b[m.children[c] as int].height == h
                &&& node_ok(b, b[m.children[c] as int])
            } else {
                m.children[c] == usize::MAX
            }
        } by {
            assert(child_size(m, c) == child_size(n, c));
            let (w, h) = child_size(n, c);
            if w > 0 && h > 0 {
                let k = n.children[c] as int;
                assert(a[k].width == b[k].width);
                lemma_node_ok_shape(a, b, a[k], b[k]);
            }
        }
    }
}

impl TagNode {
    pub fn new(width: u32, height: u32, level: u16) -> (r: Self)
        ensures
            r.width == width,
            r.height == height,
            r.level == level,
            r.value == 0,
            !r.initialized,
            r.children == [usize::MAX, usize::MAX, usize::MAX, usize::MAX],
    {
        Self {
            width,
            height,
            level,
            value: 0,
            initialized: false,
            children: [usize::MAX, usize::MAX, usize::MAX, usize::MAX],
        }
    }

    /// The width of the top-left child.
    pub fn top_left_width(&self) -> (r: u32)
        requires
            1 <= self.level <= 32,
        ensures
            r == top_left_spec(self.level as int, self.width as int),
    {
        let p = crate::math::pow2_u32((self.level - 1) as u32);
        if p <= self.width { p } else { self.width }
    }

    /// The height of the top-left child.
    pub fn top_left_height(&self) -> (r: u32)
        requires
            1 <= self.level <= 32,
        ensures
            r == top_left_spec(self.level as int, self.height as int),
    {
        let p = crate::math::pow2_u32((self.level - 1) as u32);
        if p <= self.height { p } else { self.height }
    }

    /// Build the node covering `width` by `height` positions at `level`,
    /// adding its subtree to `nodes`. The node itself is returned, not
    /// added.
    pub fn build(width: u32, height: u32, level: u16, nodes: &mut Vec<Self>) -> (r: Self)
        requires
            level <= 32,
            width <= pow2(level as nat),
            height <= pow2(level as nat),
        ensures
            node_ok(final(nodes)@, r),
            extends(old(nodes)@, final(nodes)@),
            r.width == width,
            r.height == height,
            r.level == level,
            r.value == 0,
            !r.initialized,
            forall|i: int| old(nodes)@.len() <= i < final(nodes)@.len() ==> !(#[trigger] final(nodes)@[i]).initialized
                && final(nodes)@[i].value == 0,
        decreases level,
    {
        let mut tag = Self::new(width, height, level);

        if level == 0 {
            // We reached the leaf node.
            proof {
                vstd::arithmetic::power2::lemma2_to64();
            }
            return tag;
        }

        // Determine the width and height of the top-left child node. Based
        // on this, we can infer the dimensions of all other child nodes.
        let top_left_width = tag.top_left_width();
        let top_left_height = tag.top_left_height();
        proof {
            vstd::arithmetic::power2::lemma_pow2_adds((level - 1) as nat, 1);
            vstd::arithmetic::power2::lemma2_to64();
        }
        let ghost start = nodes@;

        // We always build four children, but some nodes might in reality have
        // fewer than that. In this case, the resulting node will simply have
        // a width or height of 0 and we can recognize that it technically
        // doesn't exist.
        let mut c: usize = 0;
        while c < 4
            invariant
                1 <= level <= 32,
                c <= 4,
                tag.width == width,
                tag.height == height,
                tag.level == level,
                tag.value == 0,
                !tag.initialized,
                width <= pow2(level as nat),
                height <= pow2(level as nat),
                pow2(level as nat) == pow2((level - 1) as nat) * 2,
                top_left_width == top_left_spec(level as int, width as int),
                top_left_height == top_left_spec(level as int, height as int),
                extends(start, nodes@),
                extends(old(nodes)@, nodes@),
                forall|i: int| old(nodes)@.len() <= i < nodes@.len() ==> !(#[trigger] nodes@[i]).initialized
                    && nodes@[i].value == 0,
                forall|d: int| c <= d < 4 ==> tag.children[d] == usize::MAX,
                forall|d: int|
                    0 <= d < c ==> {
                        let (w, h) = #[trigger] child_size(tag, d);
                        if w > 0 && h > 0 {
                            &&& tag.children[d] < nodes@.len()
                            &&& nodes@[tag.children[d] as int].level == tag.level - 1
                            &&& nodes@[tag.children[d] as int].width == w
                            &&& nodes@[tag.children[d] as int].height == h
                            &&& node_ok(nodes@, nodes@[tag.children[d] as int])
                        } else {
                            tag.children[d] == usize::MAX
                        }
                    },
            decreases 4 - c,
        {
            let w = if c == 0 || c == 2 { top_left_width } else { width - top_left_width };
            let h = if c == 0 || c == 1 { top_left_height } else { height - top_left_height };
            assert((w as int, h as int) == child_size(tag, c as int));
            let ghost before = nodes@;
            let ghost tag0 = tag;
            let node = Self::build(w, h, level - 1, nodes);
            let ghost mid = nodes@;
            // If this is not the case, the child doesn't actually exist.
            if node.width > 0 && node.height > 0 {
                let node_idx = nodes.len();
                nodes.push(node);
                tag.children[c] = node_idx;
                proof {
                    assert(extends(mid, nodes@));
                    lemma_node_ok_extends(mid, nodes@, node);
                }
            }
            proof {
                assert(extends(before, nodes@)) by {
                    assert forall|i: int| 0 <= i < before.len() implies #[trigger] before[i] == nodes@[i] by {
                        assert(before[i] == mid[i]);
                    }
                }
                assert(extends(start, nodes@)) by {
                    assert forall|i: int| 0 <= i < start.len() implies #[trigger] start[i] == nodes@[i] by {
                        assert(start[i] == before[i]);
                    }
                }
                assert(extends(old(nodes)@, nodes@)) by {
                    assert forall|i: int| 0 <= i < old(nodes)@.len() implies #[trigger] old(nodes)@[i] == nodes@[i] by {
                        assert(old(nodes)@[i] == before[i]);
                    }
                }
                assert forall|i: int| old(nodes)@.len() <= i < nodes@.len() implies !(#[trigger] nodes@[i]).initialized
                    && nodes@[i].value == 0 by {
                    if i < before.len() {
                        assert(before[i] == nodes@[i]);
                    } else if i < mid.len() {
                        assert(mid[i] == nodes@[i]);
                    }
                }
            }
            proof {
                assert forall|d: int|
                    0 <= d <= c implies {
                        let (w, h) = #[trigger] child_size(tag, d);
                        if w > 0 && h > 0 {
                            &&& tag.children[d] < nodes@.len()
                            &&& nodes@[tag.children[d] as int].level == tag.level - 1
                            &&& nodes@[tag.children[d] as int].width == w
                            &&& nodes@[tag.children[d] as int].height == h
                            &&& node_ok(nodes@, nodes@[tag.children[d] as int])
                        } else {
                            tag.children[d] == usize::MAX
                        }
                    } by {
                    let (w, h) = child_size(tag, d);
                    assert(child_size(tag, d) == child_size(tag0, d));
                    if d < c {
                        assert(tag.children[d] == tag0.children[d]);
                        if w > 0 && h > 0 {
                            let k = tag.children[d] as int;
                            assert(k < before.len());
                            assert(before[k] == nodes@[k]);
                            lemma_node_ok_extends(before, nodes@, before[k]);
                        }
                    }
                }
            }
            c = c + 1;
        }
        tag
    }
}

/// The index of the leaf that holds position (`x`, `y`) below node `idx`,
/// following at most `fuel` levels.
pub open spec fn leaf_index(nodes: Seq<TagNode>, idx: int, x: int, y: int, fuel: nat) -> int
    decreases fuel,
{
    let n = nodes[idx];
    if fuel == 0 || n.level == 0 {
        idx
    } else {
        let tlw = top_left_spec(n.level as int, n.width as int);
        let tlh = top_left_spec(n.level as int, n.height as int);
        let c: int = if x < tlw { if y < tlh { 0 } else { 2 } } else { if y < tlh { 1 } else { 3 } };
        let cx = if x < tlw { x } else { x - tlw };
        let cy = if y < tlh { y } else { y - tlh };
        leaf_index(nodes, n.children[c] as int, cx, cy, (fuel - 1) as nat)
    }
}

/// The leaf path only depends on the shape of the tree.
proof fn lemma_leaf_index_shape(a: Seq<TagNode>, b: Seq<TagNode>, idx: int, x: int, y: int, fuel: nat)
    requires
        same_shape(a, b),
        0 <= idx < a.len(),
        node_ok(a, a[idx]),
        0 <= x < a[idx].width,
        0 <= y < a[idx].height,
    ensures
        leaf_index(a, idx, x, y, fuel) == leaf_index(b, idx, x, y, fuel),
    decreases fuel,
{
    let n = a[idx];
    if fuel > 0 && n.level > 0 {
        let tlw = top_left_spec(n.level as int, n.width as int);
        let tlh = top_left_spec(n.level as int, n.height as int);
        let c: int = if x < tlw { if y < tlh { 0 } else { 2 } } else { if y < tlh { 1 } else { 3 } };
        let cx = if x < tlw { x } else { x - tlw };
        let cy = if y < tlh { y } else { y - tlh };
        assert(child_size(n, c).0 > 0 && child_size(n, c).1 > 0);
        lemma_leaf_index_shape(a, b, n.children[c] as int, cx, cy, (fuel - 1) as nat);
    }
}

/// The value decoding keeps: values never drop, and a node that is
/// initialized keeps its value.
pub open spec fn values_kept(a: Seq<TagNode>, b: Seq<TagNode>) -> bool {
    &&& same_shape(a, b)
    &&& forall|i: int|
        0 <= i < a.len() ==> (#[trigger] b[i]).value >= a[i].value && (a[i].initialized ==> b[i].initialized
            && b[i].value == a[i].value)
}

/// Decoding the value of a node from bit position `pos` of `data`
/// (B.10.2): starting from `val`, each 0 bit raises the value by one and a 1
/// bit says that it is the value; no bit is read once the value reaches
/// `max_val`. Gives the value and whether it is known, `None` where the
/// data runs out, and the bit position after.
pub open spec fn node_bits(data: Seq<u8>, pos: int, val: u32, max_val: u32) -> (Option<(u32, bool)>, int)
    decreases max_val - val,
{
    if val >= max_val {
        (Some((val, false)), pos)
    } else {
        let (b, p) = stuffed_bits(data, pos, 1, 0);
        match b {
            None => (None, p),
            Some(bit) => if bit == 0 {
                node_bits(data, p, (val + 1) as u32, max_val)
            } else {
                (Some((val, true)), p)
            },
        }
    }
}

/// Reading the value of position (`x`, `y`) below node `idx` from bit
/// position `pos` of `data`, following at most `fuel` levels (B.10.2): a
/// node that is not known yet is decoded from the larger of its current
/// value and that of its parent; the walk goes on to the child that holds
/// the position until it reaches the leaf or a value of at least
/// `max_val`. Gives the value, `None` where the data runs out, the nodes
/// and the bit position after.
pub open spec fn tag_read(
    nodes: Seq<TagNode>,
    idx: int,
    x: int,
    y: int,
    data: Seq<u8>,
    pos: int,
    parent: u32,
    max_val: u32,
    fuel: nat,
) -> (Option<u32>, Seq<TagNode>, int)
    decreases fuel,
{
    let n = nodes[idx];
    let decoded: (Option<(u32, Seq<TagNode>)>, int) = if !n.initialized {
        let start = if parent >= n.value { parent } else { n.value };
        match node_bits(data, pos, start, max_val) {
            (None, p) => (None, p),
            (Some((v, known)), p) => (Some((v, nodes.update(idx, TagNode { value: v, initialized: known, ..n }))), p),
        }
    } else {
        (Some((n.value, nodes)), pos)
    };
    match decoded {
        (None, p) => (None, nodes, p),
        (Some((value, nodes1)), p) => if value >= max_val || n.level == 0 || fuel == 0 {
            (Some(value), nodes1, p)
        } else {
            let tlw = top_left_spec(n.level as int, n.width as int);
            let tlh = top_left_spec(n.level as int, n.height as int);
            let c: int = if x < tlw { if y < tlh { 0 } else { 2 } } else { if y < tlh { 1 } else { 3 } };
            let cx = if x < tlw { x } else { x - tlw };
            let cy = if y < tlh { y } else { y - tlh };
            tag_read(nodes1, n.children[c] as int, cx, cy, data, p, value, max_val, (fuel - 1) as nat)
        },
    }
}

/// Read the value of position (`x`, `y`) below node `node_idx`, decoding
/// the nodes on the way as far as `max_val` requires.
fn read_tag_node(
    node_idx: usize,
    x: u32,
    y: u32,
    reader: &mut BitReader<'_>,
    parent_val: u32,
    max_val: u32,
    nodes: &mut Vec<TagNode>,
) -> (r: Option<u32>)
    requires
        old(reader).wf(),
        node_idx < old(nodes)@.len(),
        node_ok(old(nodes)@, old(nodes)@[node_idx as int]),
        x < old(nodes)@[node_idx as int].width,
        y < old(nodes)@[node_idx as int].height,
    ensures
        final(reader).wf(),
        final(reader).bytes() == old(reader).bytes(),
        values_kept(old(nodes)@, final(nodes)@),
        (r, final(nodes)@, final(reader).pos()) == tag_read(
            old(nodes)@,
            node_idx as int,
            x as int,
            y as int,
            old(reader).bytes(),
            old(reader).pos(),
            parent_val,
            max_val,
            old(nodes)@[node_idx as int].level as nat,
        ),
        r matches Some(v) ==> (v >= max_val || final(nodes)@[node_idx as int].initialized),
        r matches Some(v) ==> v >= max_val || ({
            let leaf = leaf_index(old(nodes)@, node_idx as int, x as int, y as int, old(nodes)@[node_idx as int].level as nat);
            &&& final(nodes)@[leaf].initialized
            &&& final(nodes)@[leaf].value == v
            &&& final(nodes)@[leaf].level == 0
        }),
    decreases old(nodes)@[node_idx as int].level,
{
    let ghost n0 = nodes@;
    let ghost data = reader.bytes();
    let ghost p0 = reader.pos();
    let node = nodes[node_idx];

    let value = if !node.initialized {
        let mut val = if parent_val >= node.value { parent_val } else { node.value };
        let ghost start = val;
        let mut initialized = false;

        loop
            invariant_except_break
                !initialized,
                node_bits(data, p0, start, max_val) == node_bits(data, reader.pos(), val, max_val),
            invariant
                reader.wf(),
                reader.bytes() == old(reader).bytes(),
                val >= node.value,
                val >= parent_val,
                nodes@ == n0,
                data == reader.bytes(),
                node_idx < n0.len(),
                node == n0[node_idx as int],
                !node.initialized,
                start == (if parent_val >= node.value { parent_val } else { node.value }),
                p0 == old(reader).pos(),
                data == old(reader).bytes(),
            ensures
                reader.wf(),
                reader.bytes() == old(reader).bytes(),
                val >= node.value,
                val >= parent_val,
                val >= max_val || initialized,
                nodes@ == n0,
                node_bits(data, p0, start, max_val) == (Some((val, initialized)), reader.pos()),
            decreases max_val - val,
        {
            if val >= max_val {
                break;
            }

            // "Each node has an associated current value, which is
            // initialized to zero (the minimum). A 0 bit in the tag tree
            // means that the minimum (or the value in the case of the
            // highest level) is larger than the current value and a 1 bit
            // means that the minimum (or the value in the case of the
            // highest level) is equal to the current value."
            match reader.read_stuffed_bit() {
                Some(0) => val = val + 1,
                Some(_) => {
                    initialized = true;
                    break;
                },
                None => {
                    proof {
                        assert(node_bits(data, p0, start, max_val) == (None::<(u32, bool)>, reader.pos()));
                        assert(tag_read(n0, node_idx as int, x as int, y as int, data, p0, parent_val, max_val, node.level as nat)
                            == (None::<u32>, n0, reader.pos()));
                    }
                    return None;
                },
            }
        }

        nodes[node_idx].value = val;
        nodes[node_idx].initialized = initialized;
        proof {
            lemma_node_ok_shape(n0, nodes@, n0[node_idx as int], nodes@[node_idx as int]);
        }
        val
    } else {
        node.value
    };
    let ghost n1 = nodes@;
    let ghost p1 = reader.pos();
    proof {
        assert(values_kept(n0, n1));
        if !node.initialized {
            assert(n1 =~= n0.update(node_idx as int, TagNode { value: value, initialized: n1[node_idx as int].initialized, ..node }));
        }
    }

    // Abort early if we already reached the leaf node or the minimum
    // value of all children is too large.
    if value >= max_val || node.level == 0 {
        return Some(value);
    }

    let top_left_width = node.top_left_width();
    let top_left_height = node.top_left_height();

    let left = x < top_left_width;
    let top = y < top_left_height;

    let (c, cx, cy): (usize, u32, u32) = if left && top {
        (0, x, y)
    } else if !left && top {
        (1, x - top_left_width, y)
    } else if left && !top {
        (2, x, y - top_left_height)
    } else {
        (3, x - top_left_width, y - top_left_height)
    };
    proof {
        assert(child_size(node, c as int).0 > 0 && child_size(node, c as int).1 > 0);
        let k = node.children[c as int] as int;
        lemma_node_ok_shape(n0, n1, n0[k], n1[k]);
    }
    let r = read_tag_node(node.children[c], cx, cy, reader, value, max_val, nodes);
    proof {
        assert(values_kept(n0, nodes@));
        assert(n1[node_idx as int].initialized);
        assert(nodes@[node_idx as int].initialized);
        let k = node.children[c as int] as int;
        assert(n1[k].level == node.level - 1);
        assert(leaf_index(n0, node_idx as int, x as int, y as int, node.level as nat) == leaf_index(
            n0,
            k,
            cx as int,
            cy as int,
            (node.level - 1) as nat,
        ));
        lemma_leaf_index_shape(n0, n1, k, cx as int, cy as int, (node.level - 1) as nat);
    }
    r
}

/// A tag tree: the index of its root node and the size of the area it
/// covers.
#[derive(Copy, Clone)]
pub struct TagTree {
    pub root: usize,
    pub width: u32,
    pub height: u32,
}

impl TagTree {
    /// The tree is stored in `nodes`.
    pub open spec fn wf(&self, nodes: Seq<TagNode>) -> bool {
        &&& self.root < nodes.len()
        &&& node_ok(nodes, nodes[self.root as int])
        &&& nodes[self.root as int].width == self.width
        &&& nodes[self.root as int].height == self.height
    }

    /// Build a tree for `width` by `height` positions, adding its nodes to
    /// `nodes`. All values start at zero, uninitialized.
    pub fn new(width: u32, height: u32, nodes: &mut Vec<TagNode>) -> (r: Self)
        requires
            width <= 0x8000_0000,
            height <= 0x8000_0000,
        ensures
            r.wf(final(nodes)@),
            r.width == width,
            r.height == height,
            extends(old(nodes)@, final(nodes)@),
            forall|i: int| old(nodes)@.len() <= i < final(nodes)@.len() ==> !(#[trigger] final(nodes)@[i]).initialized
                && final(nodes)@[i].value == 0,
    {
        // Calculate how many levels the tree has in total.
        let lw = next_power_of_two_log2(width);
        let lh = next_power_of_two_log2(height);
        let level = if lw >= lh { lw } else { lh };
        proof {
            crate::math::lemma_pow2_ceil_log2(width as nat);
            crate::math::lemma_pow2_ceil_log2(height as nat);
            if lw < level {
                vstd::arithmetic::power2::lemma_pow2_strictly_increases(lw as nat, level as nat);
            }
            if lh < level {
                vstd::arithmetic::power2::lemma_pow2_strictly_increases(lh as nat, level as nat);
            }
        }

        let node = TagNode::build(width, height, level as u16, nodes);
        let ghost mid = nodes@;
        let idx = nodes.len();
        nodes.push(node);
        proof {
            assert(extends(mid, nodes@));
            lemma_node_ok_extends(mid, nodes@, node);
            assert(extends(old(nodes)@, nodes@)) by {
                assert forall|i: int| 0 <= i < old(nodes)@.len() implies #[trigger] old(nodes)@[i] == nodes@[i] by {
                    assert(old(nodes)@[i] == mid[i]);
                }
            }
        }

        Self { root: idx, width, height }
    }

    /// Read the value at position (`x`, `y`), decoding as much of the tree
    /// as is needed to tell whether the value is below `max_val`.
    pub fn read(&mut self, x: u32, y: u32, reader: &mut BitReader<'_>, max_val: u32, nodes: &mut Vec<TagNode>) -> (r: Option<u32>)
        requires
            old(self).wf(old(nodes)@),
            old(reader).wf(),
            x < old(self).width,
            y < old(self).height,
        ensures
            *final(self) == *old(self),
            final(self).wf(final(nodes)@),
            final(reader).wf(),
            final(reader).bytes() == old(reader).bytes(),
            values_kept(old(nodes)@, final(nodes)@),
            (r, final(nodes)@, final(reader).pos()) == tag_read(
                old(nodes)@,
                old(self).root as int,
                x as int,
                y as int,
                old(reader).bytes(),
                old(reader).pos(),
                0,
                max_val,
                old(nodes)@[old(self).root as int].level as nat,
            ),
            r matches Some(v) ==> v >= max_val || ({
                let leaf = leaf_index(
                    old(nodes)@,
                    old(self).root as int,
                    x as int,
                    y as int,
                    old(nodes)@[old(self).root as int].level as nat,
                );
                &&& final(nodes)@[leaf].initialized
                &&& final(nodes)@[leaf].value == v
                &&& final(nodes)@[leaf].level == 0
            }),
    {
        let ghost n0 = nodes@;
        let r = read_tag_node(self.root, x, y, reader, 0, max_val, nodes);
        proof {
            lemma_node_ok_shape(n0, nodes@, n0[self.root as int], nodes@[self.root as int]);
        }
        r
    }
}


/// The nodes on the way from node `idx` to position (`x`, `y`) are all
/// known, as far as a walk up to `max_val` goes.
pub open spec fn path_known(nodes: Seq<TagNode>, idx: int, x: int, y: int, max_val: u32, fuel: nat) -> bool
    decreases fuel,
{
    let n = nodes[idx];
    &&& 0 <= idx < nodes.len()
    &&& n.initialized
    &&& (n.value >= max_val || n.level == 0 || fuel == 0 || {
        let tlw = top_left_spec(n.level as int, n.width as int);
        let tlh = top_left_spec(n.level as int, n.height as int);
        let c: int = if x < tlw { if y < tlh { 0 } else { 2 } } else { if y < tlh { 1 } else { 3 } };
        let cx = if x < tlw { x } else { x - tlw };
        let cy = if y < tlh { y } else { y - tlh };
        path_known(nodes, n.children[c] as int, cx, cy, max_val, (fuel - 1) as nat)
    })
}

/// The value where such a walk over known nodes stops.
pub open spec fn path_value(nodes: Seq<TagNode>, idx: int, x: int, y: int, max_val: u32, fuel: nat) -> u32
    decreases fuel,
{
    let n = nodes[idx];
    if n.value >= max_val || n.level == 0 || fuel == 0 {
        n.value
    } else {
        let tlw = top_left_spec(n.level as int, n.width as int);
        let tlh = top_left_spec(n.level as int, n.height as int);
        let c: int = if x < tlw { if y < tlh { 0 } else { 2 } } else { if y < tlh { 1 } else { 3 } };
        let cx = if x < tlw { x } else { x - tlw };
        let cy = if y < tlh { y } else { y - tlh };
        path_value(nodes, n.children[c] as int, cx, cy, max_val, (fuel - 1) as nat)
    }
}

/// Reading the bits of a node stops at a one bit below `max_val`, or
/// without one at `max_val` or above.
proof fn lemma_node_bits_known(data: Seq<u8>, pos: int, val: u32, max_val: u32)
    ensures
        node_bits(data, pos, val, max_val).0 matches Some((v, known)) ==> (known ==> v < max_val) && (!known ==> v >= max_val),
    decreases max_val - val,
{
    if val < max_val {
        let (b, p) = stuffed_bits(data, pos, 1, 0);
        match b {
            Some(bit) => {
                if bit == 0 {
                    lemma_node_bits_known(data, p, (val + 1) as u32, max_val);
                }
            },
            None => {},
        }
    }
}

/// A walk over known nodes reads no bits and changes no node.
proof fn lemma_known_walk(
    nodes: Seq<TagNode>,
    idx: int,
    x: int,
    y: int,
    data: Seq<u8>,
    pos: int,
    parent: u32,
    max_val: u32,
    fuel: nat,
)
    requires
        path_known(nodes, idx, x, y, max_val, fuel),
    ensures
        tag_read(nodes, idx, x, y, data, pos, parent, max_val, fuel) == (
            Some(path_value(nodes, idx, x, y, max_val, fuel)),
            nodes,
            pos,
        ),
    decreases fuel,
{
    let n = nodes[idx];
    if !(n.value >= max_val || n.level == 0 || fuel == 0) {
        let tlw = top_left_spec(n.level as int, n.width as int);
        let tlh = top_left_spec(n.level as int, n.height as int);
        let c: int = if x < tlw { if y < tlh { 0 } else { 2 } } else { if y < tlh { 1 } else { 3 } };
        let cx = if x < tlw { x } else { x - tlw };
        let cy = if y < tlh { y } else { y - tlh };
        lemma_known_walk(nodes, n.children[c] as int, cx, cy, data, pos, n.value, max_val, (fuel - 1) as nat);
    }
}

/// Node `idx` of `nodes` heads a well-formed tree that covers position
/// (`x`, `y`), walked over all its levels.
pub open spec fn walk_ok(nodes: Seq<TagNode>, idx: int, x: int, y: int, fuel: nat) -> bool {
    &&& 0 <= idx < nodes.len()
    &&& node_ok(nodes, nodes[idx])
    &&& 0 <= x < nodes[idx].width
    &&& 0 <= y < nodes[idx].height
    &&& fuel == nodes[idx].level
}

/// A read keeps the shape of the tree and every node that was known
/// before it.
proof fn lemma_read_keeps_known(
    nodes: Seq<TagNode>,
    idx: int,
    x: int,
    y: int,
    data: Seq<u8>,
    pos: int,
    parent: u32,
    max_val: u32,
    fuel: nat,
)
    requires
        walk_ok(nodes, idx, x, y, fuel),
    ensures
        ({
            let res = tag_read(nodes, idx, x, y, data, pos, parent, max_val, fuel).1;
            &&& same_shape(nodes, res)
            &&& forall|j: int| 0 <= j < nodes.len() && (#[trigger] nodes[j]).initialized ==> res[j] == nodes[j]
        }),
    decreases fuel,
{
    let n = nodes[idx];
    let start = if parent >= n.value { parent } else { n.value };
    let decoded: (Option<(u32, Seq<TagNode>)>, int) = if !n.initialized {
        match node_bits(data, pos, start, max_val) {
            (None, p) => (None, p),
            (Some((v, known)), p) => (Some((v, nodes.update(idx, TagNode { value: v, initialized: known, ..n }))), p),
        }
    } else {
        (Some((n.value, nodes)), pos)
    };
    match decoded {
        (None, p) => {},
        (Some((value, nodes1)), p) => {
            assert(same_shape(nodes, nodes1));
            assert forall|j: int| 0 <= j < nodes.len() && (#[trigger] nodes[j]).initialized implies nodes1[j] == nodes[j] by {
                if j != idx {
                    assert(nodes1[j] == nodes[j]);
                }
            }
            if !(value >= max_val || n.level == 0 || fuel == 0) {
                let tlw = top_left_spec(n.level as int, n.width as int);
                let tlh = top_left_spec(n.level as int, n.height as int);
                let c: int = if x < tlw { if y < tlh { 0 } else { 2 } } else { if y < tlh { 1 } else { 3 } };
                let cx = if x < tlw { x } else { x - tlw };
                let cy = if y < tlh { y } else { y - tlh };
                assert(child_size(n, c).0 > 0 && child_size(n, c).1 > 0);
                let k = n.children[c] as int;
                lemma_node_ok_shape(nodes, nodes1, nodes[k], nodes1[k]);
                lemma_read_keeps_known(nodes1, k, cx, cy, data, p, value, max_val, (fuel - 1) as nat);
                let res = tag_read(nodes1, k, cx, cy, data, p, value, max_val, (fuel - 1) as nat).1;
                assert forall|j: int| 0 <= j < nodes.len() && (#[trigger] nodes[j]).initialized implies res[j] == nodes[j] by {
                    assert(nodes1[j].initialized);
                }
            }
        },
    }
}

/// A read that gives a value below `max_val` leaves the nodes on its way
/// known, with that value where the walk stops.
proof fn lemma_read_makes_known(
    nodes: Seq<TagNode>,
    idx: int,
    x: int,
    y: int,
    data: Seq<u8>,
    pos: int,
    parent: u32,
    max_val: u32,
    fuel: nat,
)
    requires
        walk_ok(nodes, idx, x, y, fuel),
        tag_read(nodes, idx, x, y, data, pos, parent, max_val, fuel).0 matches Some(v) && v < max_val,
    ensures
        ({
            let (r, nodes2, _p) = tag_read(nodes, idx, x, y, data, pos, parent, max_val, fuel);
            &&& path_known(nodes2, idx, x, y, max_val, fuel)
            &&& r == Some(path_value(nodes2, idx, x, y, max_val, fuel))
        }),
    decreases fuel,
{
    let n = nodes[idx];
    let start = if parent >= n.value { parent } else { n.value };
    lemma_node_bits_known(data, pos, start, max_val);
    let decoded: (Option<(u32, Seq<TagNode>)>, int) = if !n.initialized {
        match node_bits(data, pos, start, max_val) {
            (None, p) => (None, p),
            (Some((v, known)), p) => (Some((v, nodes.update(idx, TagNode { value: v, initialized: known, ..n }))), p),
        }
    } else {
        (Some((n.value, nodes)), pos)
    };
    match decoded {
        (None, p) => {},
        (Some((value, nodes1)), p) => {
            assert(same_shape(nodes, nodes1));
            if !(value >= max_val || n.level == 0 || fuel == 0) {
                let tlw = top_left_spec(n.level as int, n.width as int);
                let tlh = top_left_spec(n.level as int, n.height as int);
                let c: int = if x < tlw { if y < tlh { 0 } else { 2 } } else { if y < tlh { 1 } else { 3 } };
                let cx = if x < tlw { x } else { x - tlw };
                let cy = if y < tlh { y } else { y - tlh };
                assert(child_size(n, c).0 > 0 && child_size(n, c).1 > 0);
                let k = n.children[c] as int;
                lemma_node_ok_shape(nodes, nodes1, nodes[k], nodes1[k]);
                lemma_read_makes_known(nodes1, k, cx, cy, data, p, value, max_val, (fuel - 1) as nat);
                lemma_read_keeps_known(nodes1, k, cx, cy, data, p, value, max_val, (fuel - 1) as nat);
                assert(nodes1[idx].initialized);
            }
        },
    }
}

/// A walk over known nodes that stops below `max_val` walks the same way,
/// to the same value, for any larger bound.
proof fn lemma_path_wider(nodes: Seq<TagNode>, idx: int, x: int, y: int, max_val: u32, max_val2: u32, fuel: nat)
    requires
        path_known(nodes, idx, x, y, max_val, fuel),
        path_value(nodes, idx, x, y, max_val, fuel) < max_val,
        max_val2 >= max_val,
    ensures
        path_known(nodes, idx, x, y, max_val2, fuel),
        path_value(nodes, idx, x, y, max_val2, fuel) == path_value(nodes, idx, x, y, max_val, fuel),
    decreases fuel,
{
    let n = nodes[idx];
    if !(n.value >= max_val || n.level == 0 || fuel == 0) {
        let tlw = top_left_spec(n.level as int, n.width as int);
        let tlh = top_left_spec(n.level as int, n.height as int);
        let c: int = if x < tlw { if y < tlh { 0 } else { 2 } } else { if y < tlh { 1 } else { 3 } };
        let cx = if x < tlw { x } else { x - tlw };
        let cy = if y < tlh { y } else { y - tlh };
        lemma_path_wider(nodes, n.children[c] as int, cx, cy, max_val, max_val2, (fuel - 1) as nat);
    }
}

/// Once a read of a position has given a value below `max_val`, reading
/// that position again with `max_val` or any larger bound gives the same
/// value, reads no bit and changes no node, whatever the data and the
/// parent.
pub proof fn lemma_tag_read_again(
    nodes: Seq<TagNode>,
    idx: int,
    x: int,
    y: int,
    data: Seq<u8>,
    pos: int,
    parent: u32,
    data2: Seq<u8>,
    pos2: int,
    parent2: u32,
    max_val: u32,
    max_val2: u32,
    fuel: nat,
)
    requires
        walk_ok(nodes, idx, x, y, fuel),
        tag_read(nodes, idx, x, y, data, pos, parent, max_val, fuel).0 matches Some(v) && v < max_val,
        max_val2 >= max_val,
    ensures
        ({
            let (r, nodes1, _p) = tag_read(nodes, idx, x, y, data, pos, parent, max_val, fuel);
            tag_read(nodes1, idx, x, y, data2, pos2, parent2, max_val2, fuel) == (r, nodes1, pos2)
        }),
{
    let (r, nodes1, _p) = tag_read(nodes, idx, x, y, data, pos, parent, max_val, fuel);
    lemma_read_makes_known(nodes, idx, x, y, data, pos, parent, max_val, fuel);
    lemma_path_wider(nodes1, idx, x, y, max_val, max_val2, fuel);
    lemma_known_walk(nodes1, idx, x, y, data2, pos2, parent2, max_val2, fuel);
}

} // verus!
