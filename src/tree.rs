use vstd::prelude::*;

use crate::image::{mean_of, metric_of, pixels_fit, ImageData};
use crate::psa::{valid_rect, QuadError};
use crate::rgb::{ch, RGB};

verus! {

/// Indices of the four children of a split node, in the node arena.
#[derive(Debug, Clone, Copy, PartialEq, Eq, Structural)]
pub struct NodeChildren {
    pub nw: usize,
    pub ne: usize,
    pub sw: usize,
    pub se: usize,
}

/// A region of the quadtree: an inclusive rectangle, and its children once split.
#[derive(Debug, Clone, Copy)]
pub struct Node {
    pub top_left: (usize, usize),
    pub bottom_right: (usize, usize),
    pub children: Option<NodeChildren>,
}

/// The pixel `(y, x)` lies in the inclusive rectangle.
pub open spec fn in_rect(tl: (usize, usize), br: (usize, usize), y: int, x: int) -> bool {
    tl.0 <= y <= br.0 && tl.1 <= x <= br.1
}

/// Both axes of the rectangle extend by more than one step.
pub open spec fn splittable(tl: (usize, usize), br: (usize, usize)) -> bool {
    br.0 - tl.0 > 1 && br.1 - tl.1 > 1
}

pub open spec fn split_row(tl: (usize, usize), br: (usize, usize)) -> int {
    (tl.0 + br.0) / 2
}

pub open spec fn split_col(tl: (usize, usize), br: (usize, usize)) -> int {
    (tl.1 + br.1) / 2
}

/// Top-left corner of quadrant `q` (0 north-west, 1 north-east, 2 south-west, 3 south-east).
pub open spec fn quad_tl(tl: (usize, usize), br: (usize, usize), q: int) -> (usize, usize) {
    (
        if q >= 2 { (split_row(tl, br) + 1) as usize } else { tl.0 },
        if q == 1 || q == 3 { (split_col(tl, br) + 1) as usize } else { tl.1 },
    )
}

/// Bottom-right corner of quadrant `q`.
pub open spec fn quad_br(tl: (usize, usize), br: (usize, usize), q: int) -> (usize, usize) {
    (
        if q >= 2 { br.0 } else { split_row(tl, br) as usize },
        if q == 1 || q == 3 { br.1 } else { split_col(tl, br) as usize },
    )
}

/// The quadrant of a rectangle that holds the pixel `(y, x)`.
pub open spec fn quadrant_of(tl: (usize, usize), br: (usize, usize), y: int, x: int) -> int {
    (if y > split_row(tl, br) { 2int } else { 0int }) + (if x > split_col(tl, br) { 1int } else { 0int })
}

/// The four quadrants of a splittable rectangle tile it: every pixel of the parent lies in
/// exactly one quadrant, the one `quadrant_of` names, and no quadrant reaches outside it.
pub proof fn lemma_split_tiles(tl: (usize, usize), br: (usize, usize))
    requires
        tl.0 <= br.0 && tl.1 <= br.1,
        splittable(tl, br),
    ensures
        forall|q: int| 0 <= q < 4 ==> {
            &&& #[trigger] quad_tl(tl, br, q).0 <= quad_br(tl, br, q).0
            &&& quad_tl(tl, br, q).1 <= quad_br(tl, br, q).1
            &&& tl.0 <= quad_tl(tl, br, q).0 && quad_br(tl, br, q).0 <= br.0
            &&& tl.1 <= quad_tl(tl, br, q).1 && quad_br(tl, br, q).1 <= br.1
        },
        forall|y: int, x: int, q: int|
            0 <= q < 4 ==> (#[trigger] in_rect(quad_tl(tl, br, q), quad_br(tl, br, q), y, x) <==> (in_rect(
                tl,
                br,
                y,
                x,
            ) && quadrant_of(tl, br, y, x) == q)),
        forall|y: int, x: int|
            #[trigger] in_rect(tl, br, y, x) ==> 0 <= quadrant_of(tl, br, y, x) < 4,
{
}

impl Node {
    pub fn leaf(top_left: (usize, usize), bottom_right: (usize, usize)) -> (res: Self)
        ensures
            res.top_left == top_left,
            res.bottom_right == bottom_right,
            res.children.is_none(),
    {
        Node { top_left, bottom_right, children: None }
    }

    pub open spec fn can_split_spec(&self) -> bool {
        splittable(self.top_left, self.bottom_right)
    }

    fn height(&self) -> (res: u64)
        requires
            self.top_left.0 <= self.bottom_right.0,
        ensures
            res == self.bottom_right.0 - self.top_left.0,
    {
        (self.bottom_right.0 as u64) - (self.top_left.0 as u64)
    }

    fn width(&self) -> (res: u64)
        requires
            self.top_left.1 <= self.bottom_right.1,
        ensures
            res == self.bottom_right.1 - self.top_left.1,
    {
        (self.bottom_right.1 as u64) - (self.top_left.1 as u64)
    }

    fn can_split(&self) -> (res: bool)
        requires
            self.top_left.0 <= self.bottom_right.0 && self.top_left.1 <= self.bottom_right.1,
        ensures
            res == self.can_split_spec(),
    {
        self.width() > 1 && self.height() > 1
    }

    /// The four quadrant leaves, or `None` when the node is too thin to split.
    fn split(&self) -> (res: Option<(Node, Node, Node, Node)>)
        requires
            self.top_left.0 <= self.bottom_right.0 && self.top_left.1 <= self.bottom_right.1,
        ensures
            res.is_some() == self.can_split_spec(),
            res matches Some((a, b, c, d)) ==> {
                let (tl, br) = (self.top_left, self.bottom_right);
                &&& a == Node::leaf_spec(quad_tl(tl, br, 0), quad_br(tl, br, 0))
                &&& b == Node::leaf_spec(quad_tl(tl, br, 1), quad_br(tl, br, 1))
                &&& c == Node::leaf_spec(quad_tl(tl, br, 2), quad_br(tl, br, 2))
                &&& d == Node::leaf_spec(quad_tl(tl, br, 3), quad_br(tl, br, 3))
            },
    {
        if !self.can_split() {
            return None;
        }
        let split_h = self.top_left.0 + (self.bottom_right.0 - self.top_left.0) / 2;
        let split_w = self.top_left.1 + (self.bottom_right.1 - self.top_left.1) / 2;
        let nw_node = Node::leaf(self.top_left, (split_h, split_w));
        let ne_node = Node::leaf((self.top_left.0, split_w + 1), (split_h, self.bottom_right.1));
        let sw_node = Node::leaf((split_h + 1, self.top_left.1), (self.bottom_right.0, split_w));
        let se_node = Node::leaf((split_h + 1, split_w + 1), self.bottom_right);
        Some((nw_node, ne_node, sw_node, se_node))
    }

    pub open spec fn leaf_spec(top_left: (usize, usize), bottom_right: (usize, usize)) -> Node {
        Node { top_left, bottom_right, children: None }
    }
}

/// Whether the refinement step numbered `step` (counting from one) is captured as an
/// animation frame when one frame is kept every `delta` steps.
pub fn is_frame_step(step: u32, delta: u32) -> (res: bool)
    requires
        delta > 0,
    ensures
        res == (step % delta == 0),
{
    step % delta == 0
}

/// Offset of channel `c` of pixel `(y, x)` in a row-major raster `w` pixels wide with `nch`
/// bytes per pixel.
pub open spec fn px(w: int, nch: int, y: int, x: int, c: int) -> int {
    (y * w + x) * nch + c
}

/// Offset of the alpha byte of the `j`-th pixel of a four-byte-per-pixel raster.
pub open spec fn alpha_pos(j: int) -> int {
    j * 4 + 3
}

/// Raster offsets stay in bounds and tell pixels and channels apart.
proof fn lemma_px(h: int, w: int, nch: int, y: int, x: int, c: int, y2: int, x2: int, c2: int)
    requires
        0 <= y < h && 0 <= x < w && 0 <= c < nch,
        0 <= y2 < h && 0 <= x2 < w && 0 <= c2 < nch,
    ensures
        0 <= px(w, nch, y, x, c) < h * w * nch,
        px(w, nch, y, x, c) == px(w, nch, y2, x2, c2) ==> y == y2 && x == x2 && c == c2,
{
    let j = y * w + x;
    let j2 = y2 * w + x2;
    assert(0 <= j < h * w) by (nonlinear_arith) requires 0 <= y < h, 0 <= x < w, j == y * w + x;
    assert(0 <= j * nch + c < h * w * nch) by (nonlinear_arith) requires 0 <= j < h * w, 0 <= c < nch;
    if px(w, nch, y, x, c) == px(w, nch, y2, x2, c2) {
        assert(0 <= j2);
        assert(j == j2 && c == c2) by (nonlinear_arith)
            requires j * nch + c == j2 * nch + c2, 0 <= c < nch, 0 <= c2 < nch, j >= 0, j2 >= 0;
        assert(y == y2 && x == x2) by (nonlinear_arith)
            requires y * w + x == y2 * w + x2, 0 <= x < w, 0 <= x2 < w, y >= 0, y2 >= 0;
    }
}

/// Fills the rectangle of a row-major raster with `color`, leaving every other byte alone.
fn paint(out: &mut Vec<u8>, h: usize, w: usize, nch: usize, top_left: (usize, usize), bottom_right: (usize, usize), color: RGB)
    requires
        3 <= nch <= 4,
        h * w * 4 <= usize::MAX,
        valid_rect(h as int, w as int, top_left, bottom_right),
        old(out)@.len() == h * w * nch,
        color.r <= 255 && color.g <= 255 && color.b <= 255,
    ensures
        final(out)@.len() == old(out)@.len(),
        forall|y: int, x: int, c: int| 0 <= y < h && 0 <= x < w && 0 <= c < nch ==> #[trigger] final(out)@[px(w as int, nch as int, y, x, c)] == if in_rect(top_left, bottom_right, y, x) && c < 3 {
            ch(color, c) as u8
        } else {
            old(out)@[px(w as int, nch as int, y, x, c)]
        },
{
    let ghost pre = out@;
    let ghost (hh, ww, nn) = (h as int, w as int, nch as int);
    let total = out.len();
    let mut y = top_left.0;
    while y <= bottom_right.0
        invariant
            3 <= nch <= 4,
            h * w * 4 <= usize::MAX,
            valid_rect(hh, ww, top_left, bottom_right),
            hh == h && ww == w && nn == nch,
            top_left.0 <= y <= bottom_right.0 + 1,
            out@.len() == pre.len(),
            pre.len() == h * w * nch,
            total == pre.len(),
            forall|yy: int, x: int, c: int| 0 <= yy < h && 0 <= x < w && 0 <= c < nch ==> #[trigger] out@[px(ww, nn, yy, x, c)] == if in_rect(top_left, bottom_right, yy, x) && c < 3 && yy < y {
                ch(color, c) as u8
            } else {
                pre[px(ww, nn, yy, x, c)]
            },
        decreases bottom_right.0 + 1 - y,
    {
        let mut x = top_left.1;
        while x <= bottom_right.1
            invariant
                3 <= nch <= 4,
                h * w * 4 <= usize::MAX,
                valid_rect(hh, ww, top_left, bottom_right),
                hh == h && ww == w && nn == nch,
                top_left.0 <= y <= bottom_right.0,
                top_left.1 <= x <= bottom_right.1 + 1,
                out@.len() == pre.len(),
                pre.len() == h * w * nch,
                total == pre.len(),
                forall|yy: int, xx: int, c: int| 0 <= yy < h && 0 <= xx < w && 0 <= c < nch ==> #[trigger] out@[px(ww, nn, yy, xx, c)] == if in_rect(top_left, bottom_right, yy, xx) && c < 3 && (yy < y || (yy == y && xx < x)) {
                    ch(color, c) as u8
                } else {
                    pre[px(ww, nn, yy, xx, c)]
                },
            decreases bottom_right.1 + 1 - x,
        {
            proof {
                lemma_px(hh, ww, nn, y as int, x as int, 0, 0, 0, 0);
                lemma_px(hh, ww, nn, y as int, x as int, 2, 0, 0, 0);
                assert(px(ww, nn, y as int, x as int, 0) == (y * w + x) * nch);
                assert(y * w + x < h * w) by (nonlinear_arith) requires y < h, x < w;
                assert((y * w + x) * nch < h * w * nch) by (nonlinear_arith) requires y * w + x < h * w, nch >= 3;
                assert(y * w + x <= (y * w + x) * nch) by (nonlinear_arith) requires nch >= 3, x >= 0, y * w >= 0;
                assert(y * w >= 0) by (nonlinear_arith) requires y >= 0, w >= 0;
                assert((y * w + x) * nch < total);
                assert(total <= usize::MAX);
            }
            let row_start = y * w;
            let cell = row_start + x;
            let base = cell * nch;
            let ghost before = out@;
            out.set(base, color.r as u8);
            out.set(base + 1, color.g as u8);
            out.set(base + 2, color.b as u8);
            proof {
                assert forall|yy: int, xx: int, c: int| 0 <= yy < h && 0 <= xx < w && 0 <= c < nch implies #[trigger] out@[px(ww, nn, yy, xx, c)] == if in_rect(top_left, bottom_right, yy, xx) && c < 3 && (yy < y || (yy == y && xx < x + 1)) {
                    ch(color, c) as u8
                } else {
                    pre[px(ww, nn, yy, xx, c)]
                } by {
                    lemma_px(hh, ww, nn, yy, xx, c, y as int, x as int, 0);
                    lemma_px(hh, ww, nn, yy, xx, c, y as int, x as int, 1);
                    lemma_px(hh, ww, nn, yy, xx, c, y as int, x as int, 2);
                    assert(before[px(ww, nn, yy, xx, c)] == if in_rect(top_left, bottom_right, yy, xx) && c < 3 && (yy < y || (yy == y && xx < x)) {
                        ch(color, c) as u8
                    } else {
                        pre[px(ww, nn, yy, xx, c)]
                    });
                }
            }
            x += 1;
        }
        y += 1;
    }
}

/// `new` is `old` with leaf `s` split: its four quadrants appended as leaves, in the order
/// north-west, north-east, south-west, south-east, and recorded as its children.
pub open spec fn split_step(old: Seq<Node>, new: Seq<Node>, s: int) -> bool {
    let n = old.len();
    let p = old[s];
    &&& 0 <= s < n
    &&& new.len() == n + 4
    &&& forall|i: int| 0 <= i < n && i != s ==> #[trigger] new[i] == old[i]
    &&& new[s].top_left == p.top_left
    &&& new[s].bottom_right == p.bottom_right
    &&& new[s].children == Some(
        NodeChildren { nw: n as usize, ne: (n + 1) as usize, sw: (n + 2) as usize, se: (n + 3) as usize },
    )
    &&& forall|q: int| 0 <= q < 4 ==> #[trigger] new[n + q] == Node::leaf_spec(
        quad_tl(p.top_left, p.bottom_right, q),
        quad_br(p.top_left, p.bottom_right, q),
    )
}

/// Number of leaves among the nodes.
pub open spec fn leaf_count(s: Seq<Node>) -> nat
    decreases s.len(),
{
    if s.len() == 0 {
        0
    } else {
        leaf_count(s.drop_last()) + if s.last().children.is_none() {
            1nat
        } else {
            0nat
        }
    }
}

proof fn lemma_leaf_count_push(s: Seq<Node>, n: Node)
    ensures
        leaf_count(s.push(n)) == leaf_count(s) + if n.children.is_none() {
            1nat
        } else {
            0nat
        },
{
    assert(s.push(n).drop_last() =~= s);
}

proof fn lemma_leaf_count_update(s: Seq<Node>, i: int, n: Node)
    requires
        0 <= i < s.len(),
    ensures
        leaf_count(s.update(i, n)) + (if s[i].children.is_none() { 1int } else { 0int }) == leaf_count(s)
            + (if n.children.is_none() { 1int } else { 0int }),
    decreases s.len(),
{
    if i == s.len() - 1 {
        assert(s.update(i, n).drop_last() =~= s.drop_last());
    } else {
        lemma_leaf_count_update(s.drop_last(), i, n);
        assert(s.update(i, n).drop_last() =~= s.drop_last().update(i, n));
    }
}

/// A leaf waiting in the queue, with the error metric of its region.
pub struct OrdNode {
    pub node_index: usize,
    pub metric: u64,
}

impl OrdNode {
    pub fn new(nodes: &Vec<Node>, index: usize, image_data: &ImageData) -> (res: Self)
        requires
            image_data.wf(),
            index < nodes@.len(),
            valid_rect(
                image_data.height_spec(),
                image_data.width_spec(),
                nodes@[index as int].top_left,
                nodes@[index as int].bottom_right,
            ),
        ensures
            res.node_index == index,
            res.metric == metric_of(image_data.grid(), nodes@[index as int].top_left, nodes@[index as int].bottom_right),
    {
        let top_left = nodes[index].top_left;
        let bottom_right = nodes[index].bottom_right;
        OrdNode { node_index: index, metric: image_data.metric(top_left, bottom_right) }
    }
}

/// Position of an entry with the largest metric in a non-empty queue.
fn max_index(pq: &Vec<OrdNode>) -> (res: usize)
    requires
        pq@.len() > 0,
    ensures
        res < pq@.len(),
        forall|j: int| 0 <= j < pq@.len() ==> #[trigger] pq@[j].metric <= pq@[res as int].metric,
{
    let mut best: usize = 0;
    let mut i: usize = 1;
    while i < pq.len()
        invariant
            1 <= i <= pq@.len(),
            best < i,
            forall|j: int| 0 <= j < i ==> #[trigger] pq@[j].metric <= pq@[best as int].metric,
        decreases pq@.len() - i,
    {
        if pq[i].metric > pq[best].metric {
            best = i;
        }
        i += 1;
    }
    best
}

/// Alpha written to every pixel by `Tree::render_rgba`.
pub const MAX_ALPHA: u8 = 100;

/// The quadtree over an image, refined greedily by error metric.
///
/// The queue is a vector searched for its largest metric; an entry whose node can no
/// longer be split is dropped when it comes up.
pub struct Tree {
    image_data: ImageData,
    nodes: Vec<Node>,
    pq: Vec<OrdNode>,
    dimensions: (usize, usize),
    owner: Ghost<spec_fn(int, int) -> int>,
    splits: Ghost<nat>,
}

impl Tree {
    pub closed spec fn image(&self) -> ImageData {
        self.image_data
    }

    /// The node arena.
    pub closed spec fn nodes_view(&self) -> Seq<Node> {
        self.nodes@
    }

    /// Number of completed refinement steps.
    pub closed spec fn refinements(&self) -> nat {
        self.splits@
    }

    pub open spec fn height_spec(&self) -> int {
        self.image().height_spec()
    }

    pub open spec fn width_spec(&self) -> int {
        self.image().width_spec()
    }

    /// Node `i` is a leaf that can still be split.
    pub open spec fn splittable_leaf(&self, i: int) -> bool {
        &&& 0 <= i < self.nodes_view().len()
        &&& self.nodes_view()[i].children.is_none()
        &&& splittable(self.nodes_view()[i].top_left, self.nodes_view()[i].bottom_right)
    }

    /// Error metric of the region of node `i`.
    pub open spec fn metric_at(&self, i: int) -> int {
        metric_of(self.image().grid(), self.nodes_view()[i].top_left, self.nodes_view()[i].bottom_right)
    }

    spec fn child_ok(&self, parent: int, child: usize, q: int) -> bool {
        let p = self.nodes@[parent];
        &&& parent < child < self.nodes@.len()
        &&& self.nodes@[child as int].top_left == quad_tl(p.top_left, p.bottom_right, q)
        &&& self.nodes@[child as int].bottom_right == quad_br(p.top_left, p.bottom_right, q)
    }

    spec fn split_ok(&self, i: int, n: Node) -> bool {
        n.children matches Some(c) ==> {
            &&& splittable(n.top_left, n.bottom_right)
            &&& self.child_ok(i, c.nw, 0)
            &&& self.child_ok(i, c.ne, 1)
            &&& self.child_ok(i, c.sw, 2)
            &&& self.child_ok(i, c.se, 3)
        }
    }

    spec fn has_entry(&self, i: int) -> bool {
        exists|e: int| 0 <= e < self.pq@.len() && #[trigger] self.pq@[e].node_index == i
    }

    /// The invariant, where node `except` may lack its queue entry.
    spec fn inv(&self, except: int) -> bool {
        let h = self.image_data.height_spec();
        let w = self.image_data.width_spec();
        let owner = self.owner@;
        &&& self.image_data.wf()
        &&& self.dimensions == (h as usize, w as usize)
        &&& self.nodes@.len() >= 1
        &&& self.nodes@[0].top_left == (0usize, 0usize)
        &&& self.nodes@[0].bottom_right == ((h - 1) as usize, (w - 1) as usize)
        &&& forall|i: int| 0 <= i < self.nodes@.len() ==> valid_rect(h, w, #[trigger] self.nodes@[i].top_left, self.nodes@[i].bottom_right)
        &&& forall|i: int| 0 <= i < self.nodes@.len() ==> self.split_ok(i, #[trigger] self.nodes@[i])
        &&& forall|y: int, x: int| 0 <= y < h && 0 <= x < w ==> {
            &&& 0 <= #[trigger] owner(y, x) < self.nodes@.len()
            &&& self.nodes@[owner(y, x)].children.is_none()
            &&& in_rect(self.nodes@[owner(y, x)].top_left, self.nodes@[owner(y, x)].bottom_right, y, x)
        }
        &&& forall|i: int, y: int, x: int|
            0 <= i < self.nodes@.len() && self.nodes@[i].children.is_none() && #[trigger] in_rect(
                self.nodes@[i].top_left,
                self.nodes@[i].bottom_right,
                y,
                x,
            ) ==> owner(y, x) == i
        &&& forall|e: int| 0 <= e < self.pq@.len() ==> {
            &&& (#[trigger] self.pq@[e]).node_index < self.nodes@.len()
            &&& self.pq@[e].metric == metric_of(
                self.image_data.grid(),
                self.nodes@[self.pq@[e].node_index as int].top_left,
                self.nodes@[self.pq@[e].node_index as int].bottom_right,
            )
        }
        &&& forall|i: int| #[trigger] self.splittable_leaf(i) && i != except ==> self.has_entry(i)
        &&& self.nodes@.len() == 1 + 4 * self.splits@
        &&& leaf_count(self.nodes@) == 1 + 3 * self.splits@
    }

    pub closed spec fn wf(&self) -> bool {
        self.inv(-1)
    }

    pub fn new(image_data: ImageData) -> (res: Self)
        requires
            image_data.wf(),
        ensures
            res.wf(),
            res.image() == image_data,
            res.refinements() == 0,
            res.nodes_view().len() == 1,
            res.nodes_view()[0] == Node::leaf_spec(
                (0, 0),
                ((image_data.height_spec() - 1) as usize, (image_data.width_spec() - 1) as usize),
            ),
    {
        proof {
            image_data.lemma_wf_dims();
        }
        let dimensions = (image_data.height(), image_data.width());
        let root = Node::leaf((0, 0), (dimensions.0 - 1, dimensions.1 - 1));
        let mut nodes: Vec<Node> = Vec::new();
        nodes.push(root);
        let mut pq: Vec<OrdNode> = Vec::new();
        pq.push(OrdNode::new(&nodes, 0, &image_data));
        let ghost owner = |y: int, x: int| 0int;
        let t = Tree { image_data, nodes, pq, dimensions, owner: Ghost(owner), splits: Ghost(0) };
        proof {
            assert(t.nodes@.drop_last() =~= Seq::<Node>::empty());
            assert(leaf_count(Seq::<Node>::empty()) == 0);
            assert(leaf_count(t.nodes@) == 1);
            assert(t.has_entry(0)) by {
                assert(t.pq@[0].node_index == 0);
            }
            assert(forall|i: int| #[trigger] t.splittable_leaf(i) ==> i == 0);
            assert forall|i: int, y: int, x: int|
                0 <= i < t.nodes@.len() && t.nodes@[i].children.is_none() && #[trigger] in_rect(
                    t.nodes@[i].top_left,
                    t.nodes@[i].bottom_right,
                    y,
                    x,
                ) implies (t.owner@)(y, x) == i by {}
            assert forall|y: int, x: int| 0 <= y < t.image_data.height_spec() && 0 <= x < t.image_data.width_spec() implies {
                &&& 0 <= #[trigger] (t.owner@)(y, x) < t.nodes@.len()
                &&& t.nodes@[(t.owner@)(y, x)].children.is_none()
                &&& in_rect(t.nodes@[(t.owner@)(y, x)].top_left, t.nodes@[(t.owner@)(y, x)].bottom_right, y, x)
            } by {}
        }
        t
    }

    /// Splits leaf `s`, whose queue entry has already been taken out.
    fn apply_split(&mut self, s: usize)
        requires
            old(self).inv(s as int),
            old(self).splittable_leaf(s as int),
        ensures
            final(self).wf(),
            final(self).image() == old(self).image(),
            final(self).refinements() == old(self).refinements() + 1,
            split_step(old(self).nodes_view(), final(self).nodes_view(), s as int),
    {
        let ghost pre_nodes = self.nodes@;
        let ghost pre_pq = self.pq@;
        let ghost pre_owner = self.owner@;
        let ghost h = self.image_data.height_spec();
        let ghost w = self.image_data.width_spec();
        let node = self.nodes[s];
        let ghost (tl, br) = (node.top_left, node.bottom_right);
        proof {
            assert(valid_rect(h, w, pre_nodes[s as int].top_left, pre_nodes[s as int].bottom_right));
            lemma_split_tiles(tl, br);
        }
        let (nw, ne, sw, se) = node.split().unwrap();
        let base = self.nodes.len();
        self.nodes.push(nw);
        self.nodes.push(ne);
        self.nodes.push(sw);
        self.nodes.push(se);
        let after = self.nodes.len();
        assert(after == base + 4);
        let parent = Node {
            top_left: node.top_left,
            bottom_right: node.bottom_right,
            children: Some(NodeChildren { nw: base, ne: base + 1, sw: base + 2, se: base + 3 }),
        };
        self.nodes.set(s, parent);
        let ghost mid_nodes = self.nodes@;
        proof {
            assert forall|q: int| 0 <= q < 4 implies mid_nodes[base + q] == #[trigger] Node::leaf_spec(quad_tl(tl, br, q), quad_br(tl, br, q)) by {
                if q == 0 {} else if q == 1 {} else if q == 2 {} else {}
            }
            assert forall|q: int| 0 <= q < 4 implies #[trigger] valid_rect(h, w, mid_nodes[base + q].top_left, mid_nodes[base + q].bottom_right) by {
                assert(mid_nodes[base + q] == Node::leaf_spec(quad_tl(tl, br, q), quad_br(tl, br, q)));
            }
        }
        let e0 = OrdNode::new(&self.nodes, base, &self.image_data);
        let e1 = OrdNode::new(&self.nodes, base + 1, &self.image_data);
        let e2 = OrdNode::new(&self.nodes, base + 2, &self.image_data);
        let e3 = OrdNode::new(&self.nodes, base + 3, &self.image_data);
        self.pq.push(e0);
        self.pq.push(e1);
        self.pq.push(e2);
        self.pq.push(e3);
        let ghost b = base as int;
        self.owner = Ghost(|y: int, x: int| if pre_owner(y, x) == s as int { b + quadrant_of(tl, br, y, x) } else { pre_owner(y, x) });
        self.splits = Ghost(self.splits@ + 1);
        proof {
            let nodes = self.nodes@;
            let owner = self.owner@;
            assert(nodes == mid_nodes);
            assert forall|i: int| 0 <= i < nodes.len() implies valid_rect(h, w, #[trigger] nodes[i].top_left, nodes[i].bottom_right) by {
                if i >= b {
                    assert(valid_rect(h, w, mid_nodes[b + (i - b)].top_left, mid_nodes[b + (i - b)].bottom_right));
                } else if i != s {
                    assert(nodes[i] == pre_nodes[i]);
                }
            }
            assert forall|i: int| 0 <= i < nodes.len() implies self.split_ok(i, #[trigger] nodes[i]) by {
                if i == s {
                    assert(nodes[b] == Node::leaf_spec(quad_tl(tl, br, 0), quad_br(tl, br, 0)));
                    assert(nodes[b + 1] == Node::leaf_spec(quad_tl(tl, br, 1), quad_br(tl, br, 1)));
                    assert(nodes[b + 2] == Node::leaf_spec(quad_tl(tl, br, 2), quad_br(tl, br, 2)));
                    assert(nodes[b + 3] == Node::leaf_spec(quad_tl(tl, br, 3), quad_br(tl, br, 3)));
                } else if i >= b {
                    assert(nodes[b + (i - b)].children.is_none());
                } else {
                    assert(nodes[i] == pre_nodes[i]);
                    assert(old(self).split_ok(i, pre_nodes[i]));
                }
            }
            assert forall|y: int, x: int| 0 <= y < h && 0 <= x < w implies {
                &&& 0 <= #[trigger] owner(y, x) < nodes.len()
                &&& nodes[owner(y, x)].children.is_none()
                &&& in_rect(nodes[owner(y, x)].top_left, nodes[owner(y, x)].bottom_right, y, x)
            } by {
                assert(0 <= pre_owner(y, x) < pre_nodes.len());
                if pre_owner(y, x) == s as int {
                    let q = quadrant_of(tl, br, y, x);
                    assert(in_rect(tl, br, y, x));
                    assert(nodes[b + q] == Node::leaf_spec(quad_tl(tl, br, q), quad_br(tl, br, q)));
                    assert(in_rect(quad_tl(tl, br, q), quad_br(tl, br, q), y, x));
                } else {
                    assert(nodes[pre_owner(y, x)] == pre_nodes[pre_owner(y, x)]);
                }
            }
            assert forall|i: int, y: int, x: int|
                0 <= i < nodes.len() && nodes[i].children.is_none() && #[trigger] in_rect(
                    nodes[i].top_left,
                    nodes[i].bottom_right,
                    y,
                    x,
                ) implies owner(y, x) == i by {
                if i >= b {
                    let q = i - b;
                    assert(nodes[b + q] == Node::leaf_spec(quad_tl(tl, br, q), quad_br(tl, br, q)));
                    assert(in_rect(quad_tl(tl, br, q), quad_br(tl, br, q), y, x));
                    assert(in_rect(tl, br, y, x));
                    assert(in_rect(pre_nodes[s as int].top_left, pre_nodes[s as int].bottom_right, y, x));
                    assert(pre_owner(y, x) == s as int);
                } else {
                    assert(i != s);
                    assert(nodes[i] == pre_nodes[i]);
                    assert(in_rect(pre_nodes[i].top_left, pre_nodes[i].bottom_right, y, x));
                    assert(pre_owner(y, x) == i);
                }
            }
            let pq = self.pq@;
            assert forall|e: int| 0 <= e < pq.len() implies {
                &&& (#[trigger] pq[e]).node_index < nodes.len()
                &&& pq[e].metric == metric_of(
                    self.image_data.grid(),
                    nodes[pq[e].node_index as int].top_left,
                    nodes[pq[e].node_index as int].bottom_right,
                )
            } by {
                if e < pre_pq.len() {
                    assert(pq[e] == pre_pq[e]);
                    let j = pre_pq[e].node_index as int;
                    if j == s as int {
                        assert(nodes[j].top_left == pre_nodes[j].top_left);
                    } else {
                        assert(nodes[j] == pre_nodes[j]);
                    }
                }
            }
            assert forall|i: int| #[trigger] self.splittable_leaf(i) implies self.has_entry(i) by {
                if i >= b {
                    let e = pre_pq.len() + (i - b);
                    assert(pq[e].node_index == i);
                } else {
                    assert(i != s);
                    assert(nodes[i] == pre_nodes[i]);
                    assert(old(self).splittable_leaf(i));
                    assert(old(self).has_entry(i));
                    let e = choose|e: int| 0 <= e < pre_pq.len() && #[trigger] pre_pq[e].node_index == i;
                    assert(pq[e] == pre_pq[e]);
                }
            }
            let n0 = pre_nodes.push(nw);
            let n1 = n0.push(ne);
            let n2 = n1.push(sw);
            let n3 = n2.push(se);
            lemma_leaf_count_push(pre_nodes, nw);
            lemma_leaf_count_push(n0, ne);
            lemma_leaf_count_push(n1, sw);
            lemma_leaf_count_push(n2, se);
            lemma_leaf_count_update(n3, s as int, parent);
            assert(nodes =~= n3.update(s as int, parent));
            assert(split_step(pre_nodes, nodes, s as int));
        }
    }

    /// One refinement step: split the leaf of largest error among those that can still be
    /// split, dropping the queue entries passed over on the way.
    pub fn refine(&mut self) -> (res: Result<(), QuadError>)
        requires
            old(self).wf(),
        ensures
            final(self).wf(),
            final(self).image() == old(self).image(),
            res.is_ok() <==> exists|i: int| old(self).splittable_leaf(i),
            match res {
                Ok(_) => {
                    &&& final(self).refinements() == old(self).refinements() + 1
                    &&& exists|s: int| {
                        &&& old(self).splittable_leaf(s)
                        &&& forall|j: int| #[trigger] old(self).splittable_leaf(j) ==> old(self).metric_at(j) <= old(self).metric_at(s)
                        &&& split_step(old(self).nodes_view(), final(self).nodes_view(), s)
                    }
                },
                Err(e) => {
                    &&& e == QuadError::NoMoreRefinableNodes
                    &&& final(self).refinements() == old(self).refinements()
                    &&& final(self).nodes_view() == old(self).nodes_view()
                },
            },
    {
        loop
            invariant
                self.wf(),
                self.image_data == old(self).image_data,
                self.nodes@ == old(self).nodes@,
                self.splits@ == old(self).splits@,
                self.owner@ == old(self).owner@,
            decreases self.pq@.len(),
        {
            if self.pq.len() == 0 {
                proof {
                    assert forall|i: int| !old(self).splittable_leaf(i) by {
                        if old(self).splittable_leaf(i) {
                            assert(self.splittable_leaf(i));
                            assert(self.has_entry(i));
                        }
                    }
                }
                return Err(QuadError::NoMoreRefinableNodes);
            }
            let ghost pre_pq = self.pq@;
            proof {
                assert forall|i: int| 0 <= i < self.nodes@.len() && self.nodes@[i].children.is_none() && #[trigger] splittable(self.nodes@[i].top_left, self.nodes@[i].bottom_right) implies exists|e: int|
                    0 <= e < pre_pq.len() && #[trigger] pre_pq[e].node_index == i by {
                    assert(self.splittable_leaf(i));
                    assert(self.has_entry(i));
                }
            }
            let idx = max_index(&self.pq);
            let top = self.pq.remove(idx);
            let ghost t = top.node_index as int;
            proof {
                let pq = self.pq@;
                assert(pq =~= pre_pq.remove(idx as int));
                assert forall|e: int| 0 <= e < pq.len() implies #[trigger] pq[e] == pre_pq[if e < idx { e } else { e + 1 }] by {}
                assert forall|i: int| #[trigger] self.splittable_leaf(i) && i != t implies self.has_entry(i) by {
                    assert(self.has_entry(i)) by {
                        assert(splittable(self.nodes@[i].top_left, self.nodes@[i].bottom_right));
                        let e = choose|e: int| 0 <= e < pre_pq.len() && #[trigger] pre_pq[e].node_index == i;
                        if e < idx {
                            assert(pq[e] == pre_pq[e]);
                        } else {
                            assert(e != idx);
                            assert(pq[e - 1] == pre_pq[e]);
                        }
                    }
                }
                assert forall|e: int| 0 <= e < pq.len() implies (#[trigger] pq[e]).node_index < self.nodes@.len() by {
                    assert(pq[e] == pre_pq[if e < idx { e } else { e + 1 }]);
                }
            }
            let node = self.nodes[top.node_index];
            let ghost pre = self.nodes@[t];
            assert(valid_rect(self.image_data.height_spec(), self.image_data.width_spec(), pre.top_left, pre.bottom_right));
            if node.children.is_none() && node.can_split() {
                proof {
                    assert forall|j: int| #[trigger] old(self).splittable_leaf(j) implies old(self).metric_at(j) <= old(self).metric_at(t) by {
                        assert(self.splittable_leaf(j));
                        assert(splittable(self.nodes@[j].top_left, self.nodes@[j].bottom_right));
                        let e = choose|e: int| 0 <= e < pre_pq.len() && #[trigger] pre_pq[e].node_index == j;
                        assert(pre_pq[e].metric <= pre_pq[idx as int].metric);
                    }
                }
                assert(old(self).splittable_leaf(t));
                self.apply_split(top.node_index);
                assert(split_step(old(self).nodes_view(), self.nodes_view(), t));
                return Ok(());
            }
        }
    }

    /// `out` is a raster of the image with `nch` bytes per pixel in which every pixel of
    /// every leaf holds the leaf's mean colour, truncated to 8 bits.
    pub open spec fn shows_leaves(&self, out: Seq<u8>, nch: int) -> bool {
        let w = self.width_spec();
        &&& out.len() == self.height_spec() * w * nch
        &&& forall|i: int, y: int, x: int, c: int|
            #![trigger out[px(w, nch, y, x, c)], in_rect(self.nodes_view()[i].top_left, self.nodes_view()[i].bottom_right, y, x)]
            0 <= i < self.nodes_view().len() && self.nodes_view()[i].children.is_none() && in_rect(
                self.nodes_view()[i].top_left,
                self.nodes_view()[i].bottom_right,
                y,
                x,
            ) && 0 <= c < 3 ==> out[px(w, nch, y, x, c)] == mean_of(
                self.image().grid(),
                c,
                self.nodes_view()[i].top_left,
                self.nodes_view()[i].bottom_right,
            ) as u8
    }

    fn render(&self, nch: usize, alpha: u8) -> (res: Vec<u8>)
        requires
            self.wf(),
            3 <= nch <= 4,
        ensures
            self.shows_leaves(res@, nch as int),
            forall|y: int, x: int| 0 <= y < self.height_spec() && 0 <= x < self.width_spec() && nch == 4
                ==> #[trigger] res@[px(self.width_spec(), 4, y, x, 3)] == alpha,
    {
        proof {
            self.image_data.lemma_wf_dims();
        }
        let h = self.dimensions.0;
        let w = self.dimensions.1;
        let ghost (hh, ww, nn) = (h as int, w as int, nch as int);
        let n_px = h * w;
        let mut out: Vec<u8> = Vec::new();
        let mut k: usize = 0;
        while k < n_px
            invariant
                0 <= k <= n_px,
                n_px == h * w,
                3 <= nch <= 4,
                out@.len() == k * nch,
                forall|j: int| 0 <= j < k && nch == 4 ==> #[trigger] out@[alpha_pos(j)] == alpha,
            decreases n_px - k,
        {
            let ghost before = out@;
            out.push(0);
            out.push(0);
            out.push(0);
            if nch == 4 {
                out.push(alpha);
            }
            proof {
                assert forall|j: int| 0 <= j < k + 1 && nch == 4 implies #[trigger] out@[alpha_pos(j)] == alpha by {
                    if j < k {
                        assert(before[alpha_pos(j)] == alpha);
                    }
                }
            }
            k += 1;
        }
        proof {
            assert forall|y: int, x: int| 0 <= y < hh && 0 <= x < ww && nch == 4 implies #[trigger] out@[px(ww, 4, y, x, 3)] == alpha by {
                assert(0 <= y * ww + x < hh * ww) by (nonlinear_arith) requires 0 <= y < hh, 0 <= x < ww;
                assert(out@[alpha_pos(y * ww + x)] == alpha);
            }
        }
        let mut i: usize = 0;
        while i < self.nodes.len()
            invariant
                self.wf(),
                0 <= i <= self.nodes@.len(),
                3 <= nch <= 4,
                hh == h && ww == w && nn == nch,
                hh == self.height_spec() && ww == self.width_spec(),
                pixels_fit(hh * ww),
                out@.len() == h * w * nch,
                forall|y: int, x: int, c: int|
                    0 <= y < hh && 0 <= x < ww && 0 <= c < 3 && (self.owner@)(y, x) < i ==> #[trigger] out@[px(ww, nn, y, x, c)] == mean_of(
                        self.image_data.grid(),
                        c,
                        self.nodes@[(self.owner@)(y, x)].top_left,
                        self.nodes@[(self.owner@)(y, x)].bottom_right,
                    ) as u8,
                forall|y: int, x: int| 0 <= y < hh && 0 <= x < ww && nch == 4 ==> #[trigger] out@[px(ww, 4, y, x, 3)] == alpha,
            decreases self.nodes@.len() - i,
        {
            let node = self.nodes[i];
            let ghost before = out@;
            if node.children.is_none() {
                assert(valid_rect(hh, ww, node.top_left, node.bottom_right));
                let color = self.image_data.average(node.top_left, node.bottom_right);
                paint(&mut out, h, w, nch, node.top_left, node.bottom_right, color);
                proof {
                    assert forall|y: int, x: int, c: int|
                        0 <= y < hh && 0 <= x < ww && 0 <= c < 3 && (self.owner@)(y, x) < i + 1 implies #[trigger] out@[px(ww, nn, y, x, c)] == mean_of(
                            self.image_data.grid(),
                            c,
                            self.nodes@[(self.owner@)(y, x)].top_left,
                            self.nodes@[(self.owner@)(y, x)].bottom_right,
                        ) as u8 by {
                        let o = (self.owner@)(y, x);
                        if o == i {
                            assert(in_rect(node.top_left, node.bottom_right, y, x));
                            assert(ch(color, c) == mean_of(self.image_data.grid(), c, node.top_left, node.bottom_right));
                        } else {
                            if in_rect(node.top_left, node.bottom_right, y, x) {
                                assert(in_rect(self.nodes@[i as int].top_left, self.nodes@[i as int].bottom_right, y, x));
                            }
                            assert(before[px(ww, nn, y, x, c)] == out@[px(ww, nn, y, x, c)]);
                        }
                    }
                    assert forall|y: int, x: int| 0 <= y < hh && 0 <= x < ww && nch == 4 implies #[trigger] out@[px(ww, 4, y, x, 3)] == alpha by {
                        assert(before[px(ww, nn, y, x, 3)] == alpha);
                    }
                }
            } else {
                proof {
                    assert forall|y: int, x: int, c: int|
                        0 <= y < hh && 0 <= x < ww && 0 <= c < 3 && (self.owner@)(y, x) < i + 1 implies #[trigger] out@[px(ww, nn, y, x, c)] == mean_of(
                            self.image_data.grid(),
                            c,
                            self.nodes@[(self.owner@)(y, x)].top_left,
                            self.nodes@[(self.owner@)(y, x)].bottom_right,
                        ) as u8 by {
                        assert((self.owner@)(y, x) != i);
                    }
                }
            }
            i += 1;
        }
        proof {
            assert forall|i: int, y: int, x: int, c: int|
                #![trigger out@[px(ww, nn, y, x, c)], in_rect(self.nodes_view()[i].top_left, self.nodes_view()[i].bottom_right, y, x)]
                0 <= i < self.nodes_view().len() && self.nodes_view()[i].children.is_none() && in_rect(
                    self.nodes_view()[i].top_left,
                    self.nodes_view()[i].bottom_right,
                    y,
                    x,
                ) && 0 <= c < 3 implies out@[px(ww, nn, y, x, c)] == mean_of(
                    self.image().grid(),
                    c,
                    self.nodes_view()[i].top_left,
                    self.nodes_view()[i].bottom_right,
                ) as u8 by {
                assert(valid_rect(hh, ww, self.nodes@[i].top_left, self.nodes@[i].bottom_right));
                assert((self.owner@)(y, x) == i);
            }
        }
        out
    }

    /// The image as packed 8-bit RGB, row by row.
    pub fn render_rgb(&self) -> (res: Vec<u8>)
        requires
            self.wf(),
        ensures
            self.shows_leaves(res@, 3),
    {
        self.render(3, 0)
    }

    /// The image as packed 8-bit RGBA, row by row, with alpha `MAX_ALPHA` everywhere.
    pub fn render_rgba(&self) -> (res: Vec<u8>)
        requires
            self.wf(),
        ensures
            self.shows_leaves(res@, 4),
            forall|y: int, x: int| 0 <= y < self.height_spec() && 0 <= x < self.width_spec()
                ==> #[trigger] res@[px(self.width_spec(), 4, y, x, 3)] == MAX_ALPHA,
    {
        self.render(4, MAX_ALPHA)
    }

    /// After any number of completed refinement steps the arena holds one node plus four per
    /// step, and the tree has one leaf plus three per step.
    pub proof fn lemma_node_counts(&self)
        requires
            self.wf(),
        ensures
            self.nodes_view().len() == 1 + 4 * self.refinements(),
            leaf_count(self.nodes_view()) == 1 + 3 * self.refinements(),
    {
    }

    /// Every pixel of the image lies in exactly one leaf.
    pub proof fn lemma_leaves_tile_image(&self, y: int, x: int)
        requires
            self.wf(),
            0 <= y < self.height_spec(),
            0 <= x < self.width_spec(),
        ensures
            exists|i: int|
                0 <= i < self.nodes_view().len() && self.nodes_view()[i].children.is_none() && #[trigger] in_rect(
                    self.nodes_view()[i].top_left,
                    self.nodes_view()[i].bottom_right,
                    y,
                    x,
                ),
            forall|i: int, j: int|
                #![trigger in_rect(self.nodes_view()[i].top_left, self.nodes_view()[i].bottom_right, y, x), in_rect(self.nodes_view()[j].top_left, self.nodes_view()[j].bottom_right, y, x)]
                0 <= i < self.nodes_view().len() && self.nodes_view()[i].children.is_none() && in_rect(
                    self.nodes_view()[i].top_left,
                    self.nodes_view()[i].bottom_right,
                    y,
                    x,
                ) && 0 <= j < self.nodes_view().len() && self.nodes_view()[j].children.is_none() && in_rect(
                    self.nodes_view()[j].top_left,
                    self.nodes_view()[j].bottom_right,
                    y,
                    x,
                ) ==> i == j,
    {
        let o = (self.owner@)(y, x);
        assert(in_rect(self.nodes@[o].top_left, self.nodes@[o].bottom_right, y, x));
    }

    /// The node arena.
    pub fn nodes(&self) -> (res: &Vec<Node>)
        ensures
            res@ == self.nodes_view(),
    {
        &self.nodes
    }

    /// The region statistics the tree was built on.
    pub fn image_data(&self) -> (res: &ImageData)
        ensures
            *res == self.image(),
    {
        &self.image_data
    }

    /// Every node lies inside the image, and every split node is splittable, has four
    /// children that come after it in the arena, and those children are its quadrants in
    /// the order north-west, north-east, south-west, south-east.
    pub proof fn lemma_tree_shape(&self)
        requires
            self.wf(),
        ensures
            forall|i: int|
                0 <= i < self.nodes_view().len() ==> valid_rect(
                    self.height_spec(),
                    self.width_spec(),
                    #[trigger] self.nodes_view()[i].top_left,
                    self.nodes_view()[i].bottom_right,
                ),
            forall|i: int| #![trigger self.nodes_view()[i]]
                0 <= i < self.nodes_view().len() && self.nodes_view()[i].children is Some ==> {
                    let n = self.nodes_view()[i];
                    let c = n.children->0;
                    &&& splittable(n.top_left, n.bottom_right)
                    &&& i < c.nw < self.nodes_view().len()
                    &&& i < c.ne < self.nodes_view().len()
                    &&& i < c.sw < self.nodes_view().len()
                    &&& i < c.se < self.nodes_view().len()
                    &&& self.nodes_view()[c.nw as int].top_left == quad_tl(n.top_left, n.bottom_right, 0)
                    &&& self.nodes_view()[c.nw as int].bottom_right == quad_br(n.top_left, n.bottom_right, 0)
                    &&& self.nodes_view()[c.ne as int].top_left == quad_tl(n.top_left, n.bottom_right, 1)
                    &&& self.nodes_view()[c.ne as int].bottom_right == quad_br(n.top_left, n.bottom_right, 1)
                    &&& self.nodes_view()[c.sw as int].top_left == quad_tl(n.top_left, n.bottom_right, 2)
                    &&& self.nodes_view()[c.sw as int].bottom_right == quad_br(n.top_left, n.bottom_right, 2)
                    &&& self.nodes_view()[c.se as int].top_left == quad_tl(n.top_left, n.bottom_right, 3)
                    &&& self.nodes_view()[c.se as int].bottom_right == quad_br(n.top_left, n.bottom_right, 3)
                },
    {
        assert forall|i: int| #![trigger self.nodes_view()[i]]
            0 <= i < self.nodes_view().len() && self.nodes_view()[i].children is Some implies {
                let n = self.nodes_view()[i];
                let c = n.children->0;
                &&& splittable(n.top_left, n.bottom_right)
                &&& self.child_ok(i, c.nw, 0)
                &&& self.child_ok(i, c.ne, 1)
                &&& self.child_ok(i, c.sw, 2)
                &&& self.child_ok(i, c.se, 3)
            } by {
            assert(self.split_ok(i, self.nodes@[i]));
        }
    }
}

} // verus!
