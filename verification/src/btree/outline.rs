//! The tree drawn as an outline, page by page in the order a stack of pages to visit hands
//! them out: each page, then the entries of a leaf, or else the outlines of its children
//! from the last to the first.
use vstd::prelude::*;

use crate::btree::btree::BTree;
use crate::btree::btree_node::BTreeNode;
use crate::btree::common::PageId;
use crate::btree::page_managers::page_manager::PageManager;
use crate::btree::tree_spec::{child_hi, child_lo, wf_subtree};

verus! {

/// One line of the outline.
#[derive(Clone, Copy, Debug, PartialEq, Eq, Structural)]
pub enum OutlineLine {
    /// A page, `depth` levels below the root.
    Page { page: PageId, depth: u64 },
    /// Entry `index` of the leaf in page `leaf`, `depth` levels below the root; `under_last`
    /// tells whether that leaf is the first child of its parent, which is shown last.
    Entry { leaf: PageId, index: u64, depth: u64, under_last: bool },
}

/// The outline of the tree of height `h` below `p`, whose root is `depth` levels down and is
/// shown last among its siblings when `last`.
pub open spec fn outline_of(pages: Map<PageId, BTreeNode>, p: PageId, h: int, depth: int, last: bool) -> Seq<
    OutlineLine,
>
    decreases h, 0int,
{
    let head = seq![OutlineLine::Page { page: p, depth: depth as u64 }];
    if !pages.contains_key(p) {
        head
    } else {
        match pages[p] {
            BTreeNode::Leaf(l) => head + Seq::new(
                l.keys@.len(),
                |i: int| OutlineLine::Entry { leaf: p, index: i as u64, depth: depth as u64, under_last: last },
            ),
            BTreeNode::Internal(m) => if h > 0 {
                head + children_outline(pages, m.children@, m.children@.len() as int, h - 1, depth + 1)
            } else {
                head
            },
        }
    }
}

/// The outlines of the first `k` of the children `cs`, from child `k - 1` down to the first,
/// each shown last when it is the first child.
pub open spec fn children_outline(pages: Map<PageId, BTreeNode>, cs: Seq<PageId>, k: int, h: int, depth: int) -> Seq<
    OutlineLine,
>
    decreases h, k,
{
    if k <= 0 || k > cs.len() {
        Seq::empty()
    } else {
        outline_of(pages, cs[k - 1], h, depth, cs[k - 1] == cs[0]) + children_outline(pages, cs, k - 1, h, depth)
    }
}

/// `s` written `n` times.
pub open spec fn repeated(s: Seq<u8>, n: nat) -> Seq<u8>
    decreases n,
{
    if n == 0 {
        Seq::empty()
    } else {
        repeated(s, (n - 1) as nat) + s
    }
}

/// One level of indentation: a bar and two spaces.
pub open spec fn bar() -> Seq<u8> {
    seq![124u8, 32u8, 32u8]
}

/// The branch in front of a page or an entry: a bar and two underscores.
pub open spec fn branch() -> Seq<u8> {
    seq![124u8, 95u8, 95u8]
}

/// The bytes drawn in front of what `line` shows: a bar for each level above it and a
/// branch; under a last child, the entries of a leaf below the first level take four
/// spaces in place of their last bar. The root's own line has none.
pub open spec fn line_prefix(line: OutlineLine) -> Seq<u8> {
    match line {
        OutlineLine::Page { page: _, depth } => if depth == 0 {
            Seq::empty()
        } else {
            repeated(bar(), (depth - 1) as nat) + branch()
        },
        OutlineLine::Entry { leaf: _, index: _, depth, under_last } => (if depth <= 1 || !under_last {
            repeated(bar(), depth as nat)
        } else {
            repeated(bar(), (depth - 1) as nat) + seq![32u8, 32u8, 32u8, 32u8]
        }) + branch(),
    }
}

/// `n` bars are `3 * n` bytes, bar after bar.
pub proof fn lemma_bars(n: nat)
    ensures
        repeated(bar(), n).len() == 3 * n,
        forall|i: int| 0 <= i < n ==> #[trigger] repeated(bar(), n).subrange(3 * i, 3 * i + 3) == seq![124u8, 32u8, 32u8],
    decreases n,
{
    if n > 0 {
        lemma_bars((n - 1) as nat);
        let prev = repeated(bar(), (n - 1) as nat);
        let cur = repeated(bar(), n);
        assert forall|i: int| 0 <= i < n implies #[trigger] cur.subrange(3 * i, 3 * i + 3) == seq![124u8, 32u8, 32u8] by {
            if i < n - 1 {
                assert(cur.subrange(3 * i, 3 * i + 3) =~= prev.subrange(3 * i, 3 * i + 3));
            } else {
                assert(cur.subrange(3 * i, 3 * i + 3) =~= bar());
            }
        }
    }
}

/// What the prefix of an outline line looks like: for a page below the root, a bar for
/// each level above it and a branch; for the root, nothing; for the entries of a leaf, a bar
/// for each level and a branch, but four spaces in place of the last bar under a last child
/// below the first level.
/// `n` bars followed by `tail`: `3 * n` bytes of bars, then `tail`.
proof fn lemma_bars_then(n: nat, tail: Seq<u8>)
    ensures
        (repeated(bar(), n) + tail).len() == 3 * n + tail.len(),
        forall|i: int| 0 <= i < n ==> #[trigger] (repeated(bar(), n) + tail).subrange(3 * i, 3 * i + 3) == seq![124u8, 32u8, 32u8],
        (repeated(bar(), n) + tail).subrange(3 * n as int, 3 * n + tail.len() as int) == tail,
{
    lemma_bars(n);
    let b = repeated(bar(), n);
    let full = b + tail;
    assert forall|i: int| 0 <= i < n implies #[trigger] full.subrange(3 * i, 3 * i + 3) == seq![124u8, 32u8, 32u8] by {
        assert(full.subrange(3 * i, 3 * i + 3) =~= b.subrange(3 * i, 3 * i + 3));
    }
    assert(full.subrange(3 * n as int, 3 * n + tail.len() as int) =~= tail);
}

pub proof fn lemma_line_prefix_shape(line: OutlineLine)
    ensures
        line matches OutlineLine::Page { page: _, depth } ==> {
            &&& depth == 0 ==> line_prefix(line).len() == 0
            &&& depth >= 1 ==> {
                &&& line_prefix(line).len() == 3 * depth
                &&& forall|i: int| 0 <= i < depth - 1 ==> #[trigger] line_prefix(line).subrange(3 * i, 3 * i + 3) == seq![124u8, 32u8, 32u8]
                &&& line_prefix(line).subrange(3 * depth - 3, 3 * depth as int) == seq![124u8, 95u8, 95u8]
            }
        },
        line matches OutlineLine::Entry { leaf: _, index: _, depth, under_last } ==> {
            &&& depth <= 1 || !under_last ==> {
                &&& line_prefix(line).len() == 3 * depth + 3
                &&& forall|i: int| 0 <= i < depth ==> #[trigger] line_prefix(line).subrange(3 * i, 3 * i + 3) == seq![124u8, 32u8, 32u8]
                &&& line_prefix(line).subrange(3 * depth as int, 3 * depth + 3) == seq![124u8, 95u8, 95u8]
            }
            &&& depth > 1 && under_last ==> {
                &&& line_prefix(line).len() == 3 * depth + 4
                &&& forall|i: int| 0 <= i < depth - 1 ==> #[trigger] line_prefix(line).subrange(3 * i, 3 * i + 3) == seq![124u8, 32u8, 32u8]
                &&& line_prefix(line).subrange(3 * depth - 3, 3 * depth + 1) == seq![32u8, 32u8, 32u8, 32u8]
                &&& line_prefix(line).subrange(3 * depth + 1, 3 * depth + 4) == seq![124u8, 95u8, 95u8]
            }
        },
{
    match line {
        OutlineLine::Page { page: _, depth } => {
            if depth >= 1 {
                lemma_bars_then((depth - 1) as nat, branch());
            }
        },
        OutlineLine::Entry { leaf: _, index: _, depth, under_last } => {
            if depth <= 1 || !under_last {
                lemma_bars_then(depth as nat, branch());
            } else {
                let t = seq![32u8, 32u8, 32u8, 32u8] + branch();
                lemma_bars_then((depth - 1) as nat, t);
                assert(repeated(bar(), (depth - 1) as nat) + seq![32u8, 32u8, 32u8, 32u8] + branch()
                    =~= repeated(bar(), (depth - 1) as nat) + t);
                let full = repeated(bar(), (depth - 1) as nat) + t;
                assert(full.subrange(3 * depth - 3, 3 * depth + 1) =~= t.subrange(0, 4));
                assert(full.subrange(3 * depth + 1, 3 * depth + 4) =~= t.subrange(4, 7));
                assert(t.subrange(0, 4) =~= seq![32u8, 32u8, 32u8, 32u8]);
                assert(t.subrange(4, 7) =~= branch());
            }
        },
    }
}

/// Appends `n` bars to `out`.
fn push_bars(out: &mut Vec<u8>, n: u64)
    ensures
        final(out)@ == old(out)@ + repeated(bar(), n as nat),
{
    let mut i: u64 = 0;
    while i < n
        invariant
            0 <= i <= n,
            out@ == old(out)@ + repeated(bar(), i as nat),
        decreases n - i,
    {
        out.push(124u8);
        out.push(32u8);
        out.push(32u8);
        i = i + 1;
        assert(out@ =~= old(out)@ + repeated(bar(), i as nat));
    }
}

/// The bytes drawn in front of what `line` shows.
pub fn outline_prefix(line: &OutlineLine) -> (r: Vec<u8>)
    ensures
        r@ == line_prefix(*line),
        *line matches OutlineLine::Page { page: _, depth } ==> {
            &&& depth == 0 ==> r@.len() == 0
            &&& depth >= 1 ==> {
                &&& r@.len() == 3 * depth
                &&& forall|i: int| 0 <= i < depth - 1 ==> #[trigger] r@.subrange(3 * i, 3 * i + 3) == seq![124u8, 32u8, 32u8]
                &&& r@.subrange(3 * depth - 3, 3 * depth as int) == seq![124u8, 95u8, 95u8]
            }
        },
        *line matches OutlineLine::Entry { leaf: _, index: _, depth, under_last } ==> {
            &&& depth <= 1 || !under_last ==> {
                &&& r@.len() == 3 * depth + 3
                &&& forall|i: int| 0 <= i < depth ==> #[trigger] r@.subrange(3 * i, 3 * i + 3) == seq![124u8, 32u8, 32u8]
                &&& r@.subrange(3 * depth as int, 3 * depth + 3) == seq![124u8, 95u8, 95u8]
            }
            &&& depth > 1 && under_last ==> {
                &&& r@.len() == 3 * depth + 4
                &&& forall|i: int| 0 <= i < depth - 1 ==> #[trigger] r@.subrange(3 * i, 3 * i + 3) == seq![124u8, 32u8, 32u8]
                &&& r@.subrange(3 * depth - 3, 3 * depth + 1) == seq![32u8, 32u8, 32u8, 32u8]
                &&& r@.subrange(3 * depth + 1, 3 * depth + 4) == seq![124u8, 95u8, 95u8]
            }
        },
{
    proof {
        lemma_line_prefix_shape(*line);
    }
    let mut out: Vec<u8> = Vec::new();
    match *line {
        OutlineLine::Page { page: _, depth } => {
            if depth == 0 {
                assert(out@ =~= line_prefix(*line));
                return out;
            }
            push_bars(&mut out, depth - 1);
        },
        OutlineLine::Entry { leaf: _, index: _, depth, under_last } => {
            if depth <= 1 || !under_last {
                push_bars(&mut out, depth);
            } else {
                push_bars(&mut out, depth - 1);
                out.push(32u8);
                out.push(32u8);
                out.push(32u8);
                out.push(32u8);
            }
        },
    }
    let ghost before = out@;
    out.push(124u8);
    out.push(95u8);
    out.push(95u8);
    assert(out@ =~= before + branch());
    assert(out@ =~= line_prefix(*line));
    out
}

impl BTree {
    /// Appends to `out` the outline of the tree of height `h` below `page`.
    fn outline_below(
        &self,
        page: PageId,
        depth: u64,
        last: bool,
        Ghost(h): Ghost<int>,
        Ghost(lo): Ghost<Option<Seq<u8>>>,
        Ghost(hi): Ghost<Option<Seq<u8>>>,
        out: &mut Vec<OutlineLine>,
    )
        requires
            self.page_manager.inv(),
            wf_subtree(self.page_manager.pages(), page, h, lo, hi),
            depth + h <= u64::MAX,
        ensures
            final(out)@ == old(out)@ + outline_of(self.page_manager.pages(), page, h, depth as int, last),
        decreases h,
    {
        let ghost pages = self.page_manager.pages();
        let ghost base = out@;
        out.push(OutlineLine::Page { page, depth });
        let ghost head = seq![OutlineLine::Page { page: page, depth: depth }];
        assert(out@ == base + head);
        let node = match self.page_manager.get_node(page) {
            Ok(node) => node,
            Err(_) => vstd::pervasive::unreached(),
        };
        match node {
            BTreeNode::Leaf(leaf) => {
                let n = leaf.keys.len();
                let mut i: usize = 0;
                while i < n
                    invariant
                        0 <= i <= n,
                        n == leaf.keys@.len(),
                        out@ == base + head + Seq::new(
                            i as nat,
                            |j: int| OutlineLine::Entry { leaf: page, index: j as u64, depth: depth, under_last: last },
                        ),
                    decreases n - i,
                {
                    let ghost before = out@;
                    out.push(OutlineLine::Entry { leaf: page, index: i as u64, depth, under_last: last });
                    i = i + 1;
                    assert(out@ =~= base + head + Seq::new(
                        i as nat,
                        |j: int| OutlineLine::Entry { leaf: page, index: j as u64, depth: depth, under_last: last },
                    ));
                }
                assert(out@ =~= base + outline_of(pages, page, h, depth as int, last));
            },
            BTreeNode::Internal(internal) => {
                let cs = &internal.children;
                let ghost ks = pages[page].key_seq();
                let len = cs.len();
                assert(crate::btree::tree_spec::children_of(pages[page]) == cs@);
                let first = cs[0];
                let mut k: usize = len;
                while k > 0
                    invariant
                        0 <= k <= len,
                        len == cs@.len(),
                        len >= 1,
                        first == cs@[0],
                        h > 0,
                        depth + h <= u64::MAX,
                        pages == self.page_manager.pages(),
                        self.page_manager.inv(),
                        crate::btree::tree_spec::children_of(pages[page]) == cs@,
                        wf_subtree(pages, page, h, lo, hi),
                        ks == pages[page].key_seq(),
                        out@ + children_outline(pages, cs@, k as int, h - 1, depth + 1) == base + head
                            + children_outline(pages, cs@, len as int, h - 1, depth + 1),
                    decreases k,
                {
                    let c = cs[k - 1];
                    let is_last = c == first;
                    proof {
                        assert(wf_subtree(
                            pages,
                            cs@[k - 1],
                            h - 1,
                            child_lo(ks, lo, k - 1),
                            child_hi(ks, hi, k - 1),
                        ));
                    }
                    let ghost before = out@;
                    self.outline_below(
                        c,
                        depth + 1,
                        is_last,
                        Ghost(h - 1),
                        Ghost(child_lo(ks, lo, k - 1)),
                        Ghost(child_hi(ks, hi, k - 1)),
                        out,
                    );
                    proof {
                        let rest = children_outline(pages, cs@, k - 1, h - 1, depth + 1);
                        let o = outline_of(pages, c, h - 1, depth + 1, is_last);
                        assert(children_outline(pages, cs@, k as int, h - 1, depth + 1) == o + rest);
                        assert(out@ + rest =~= before + (o + rest));
                    }
                    k = k - 1;
                }
                assert(children_outline(pages, cs@, 0, h - 1, depth + 1) =~= Seq::<OutlineLine>::empty());
                assert(out@ =~= base + outline_of(pages, page, h, depth as int, last));
            },
        }
    }

    /// The tree drawn as an outline: the root, then, for a leaf, its entries, and for an
    /// internal node the outlines of its children from the last to the first.
    pub fn outline(&self) -> (r: Vec<OutlineLine>)
        requires
            self.wf(),
            self.height@ <= u64::MAX,
        ensures
            r@ == outline_of(self.page_manager.pages(), self.root, self.height@ as int, 0, true),
    {
        let mut out: Vec<OutlineLine> = Vec::new();
        self.outline_below(self.root, 0, true, Ghost(self.height@ as int), Ghost(None), Ghost(None), &mut out);
        assert(out@ =~= outline_of(self.page_manager.pages(), self.root, self.height@ as int, 0, true));
        out
    }
}

} // verus!
