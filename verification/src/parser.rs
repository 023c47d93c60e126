//! Parsing markdown: one tree for the block structure, and one tree for the inline
//! content of each of its leaves.
use crate::rope::{rope_bytes, rope_len, rope_slice, rope_text};
use crate::syntax::{
    check_fits, children, children_of, depths_of, edit_tree, edited_nodes, end_of_subtree, flatten,
    is_walk, lemma_children, lemma_depth_bound, lists, node_of, parse_block, parse_inline,
    parsed_nodes, subtree_end, tree_fits, tree_nodes, InputEdit, NodeData, NodeKind, SourceRange,
    SyntaxNode,
};
use crate::text::is_utf8;
use vstd::prelude::*;
use vstd::utf8::*;

verus! {

/// The leaf nodes whose inner text gets a second (inline) parse pass.
pub open spec fn is_leaf_kind(k: NodeKind) -> bool {
    k == NodeKind::Inline || k == NodeKind::PipeTableCell
}

/// The leaves from node `i` on; nothing below a leaf counts.
pub open spec fn leaves_from(nodes: Seq<SyntaxNode>, i: int) -> Seq<int>
    decreases nodes.len() - i,
{
    if i < 0 || i >= nodes.len() {
        seq![]
    } else if is_leaf_kind(nodes[i].kind) {
        proof {
            lemma_children(nodes, i);
        }
        seq![i] + leaves_from(nodes, subtree_end(depths_of(nodes), i))
    } else {
        leaves_from(nodes, i + 1)
    }
}

/// The leaves of a block tree, in order. A root that is itself of a leaf kind has
/// none.
pub open spec fn leaves(nodes: Seq<SyntaxNode>) -> Seq<int> {
    if nodes.len() > 0 && is_leaf_kind(nodes[0].kind) {
        seq![]
    } else {
        leaves_from(nodes, 1)
    }
}

/// A node's range on its way to being carved.
pub struct Carved {
    pub ranges: Seq<SourceRange>,
    pub rest: SourceRange,
}

/// The whole range of a node.
pub open spec fn range_of(n: SyntaxNode) -> SourceRange {
    SourceRange {
        start: n.start,
        end: n.end,
        start_point: n.start_point,
        end_point: n.end_point,
    }
}

/// The range of node `i` after the gaps before its children `1..k` were cut off.
pub open spec fn carved_upto(nodes: Seq<SyntaxNode>, i: int, k: int) -> Carved
    decreases k,
{
    if k <= 1 {
        Carved { ranges: seq![], rest: range_of(nodes[i]) }
    } else {
        let c = carved_upto(nodes, i, k - 1);
        let child = nodes[children_of(nodes, i)[k - 1]];
        if child.named {
            Carved {
                ranges: c.ranges.push(
                    SourceRange { end: child.start, end_point: child.start_point, ..c.rest },
                ),
                rest: SourceRange {
                    start: child.end,
                    start_point: child.end_point,
                    ..c.rest
                },
            }
        } else {
            c
        }
    }
}

/// The parts of a leaf's text that the inline grammar reads: the gaps between its
/// named children from the second on, and what is left after the last of them.
pub open spec fn inline_ranges(nodes: Seq<SyntaxNode>, i: int) -> Seq<SourceRange> {
    let c = carved_upto(nodes, i, children_of(nodes, i).len() as int);
    c.ranges.push(c.rest)
}

/// A parsed document: the block tree, the trees of the leaves and which nodes the
/// leaves are.
pub struct MarkdownTreeView {
    pub block: Seq<SyntaxNode>,
    pub inline: Seq<Seq<SyntaxNode>>,
    pub leaves: Seq<int>,
}

/// The trees that a parse starts from: those of a document that was told of the changes
/// since, or none.
pub struct OldTrees {
    pub block: Option<tree_sitter::Tree>,
    pub inline: Seq<tree_sitter::Tree>,
}

/// A parse from scratch starts from no trees.
pub open spec fn no_trees() -> OldTrees {
    OldTrees { block: None, inline: seq![] }
}

impl OldTrees {
    /// The old tree of leaf `k`.
    pub open spec fn leaf(self, k: int) -> Option<tree_sitter::Tree> {
        if 0 <= k < self.inline.len() {
            Some(self.inline[k])
        } else {
            None
        }
    }
}

/// The plain nodes of a tree.
pub open spec fn plain_nodes(data: Seq<NodeData>) -> Seq<SyntaxNode> {
    data.map_values(|d: NodeData| node_of(d))
}

/// The plain nodes of a parse, where there is one and it fits the text.
pub open spec fn fitting(parsed: Option<Seq<NodeData>>, text: Seq<u8>) -> Option<Seq<SyntaxNode>> {
    match parsed {
        None => None,
        Some(data) => {
            let nodes = plain_nodes(data);
            if tree_fits(nodes, text) {
                Some(nodes)
            } else {
                None
            }
        },
    }
}

/// The inline trees of the first `k` leaves; `None` where one of them has none.
pub open spec fn inline_upto(
    from: OldTrees,
    block: Seq<SyntaxNode>,
    text: Seq<u8>,
    ls: Seq<int>,
    k: int,
) -> Option<Seq<Seq<SyntaxNode>>>
    decreases k,
{
    if k <= 0 {
        Some(seq![])
    } else {
        match inline_upto(from, block, text, ls, k - 1) {
            None => None,
            Some(trees) => match fitting(
                parsed_nodes(true, inline_ranges(block, ls[k - 1]), text, from.leaf(k - 1)),
                text,
            ) {
                None => None,
                Some(nodes) => Some(trees.push(nodes)),
            },
        }
    }
}

/// What a parse from scratch gives.
pub open spec fn parsed_markdown(text: Seq<u8>) -> Option<MarkdownTreeView> {
    parsed_after(no_trees(), text)
}

/// What a parse gives that starts from some trees.
pub open spec fn parsed_after(from: OldTrees, text: Seq<u8>) -> Option<MarkdownTreeView> {
    match fitting(parsed_nodes(false, seq![], text, from.block), text) {
        None => None,
        Some(block) => {
            let ls = leaves(block);
            match inline_upto(from, block, text, ls, ls.len() as int) {
                None => None,
                Some(inline) => Some(MarkdownTreeView { block, inline, leaves: ls }),
            }
        },
    }
}

/// A document's syntax trees.
#[derive(Debug)]
pub struct MarkdownTree {
    block_tree: tree_sitter::Tree,
    inline_trees: Vec<tree_sitter::Tree>,
    block: Vec<SyntaxNode>,
    inline: Vec<Vec<SyntaxNode>>,
    leaves: Vec<usize>,
}

impl View for MarkdownTree {
    type V = MarkdownTreeView;

    closed spec fn view(&self) -> MarkdownTreeView {
        MarkdownTreeView {
            block: self.block@,
            inline: self.inline@.map_values(|v: Vec<SyntaxNode>| v@),
            leaves: self.leaves@.map_values(|i: usize| i as int),
        }
    }
}

/// The plain nodes of some trees, copied.
fn clone_nodes(v: &Vec<Vec<SyntaxNode>>) -> (r: Vec<Vec<SyntaxNode>>)
    ensures
        r@.len() == v@.len(),
        r@.map_values(|v: Vec<SyntaxNode>| v@) == v@.map_values(|v: Vec<SyntaxNode>| v@),
{
    let mut r: Vec<Vec<SyntaxNode>> = Vec::new();
    let mut i: usize = 0;
    while i < v.len()
        invariant
            i <= v@.len(),
            r@.len() == i,
            forall|k: int| 0 <= k < i ==> (#[trigger] r@[k])@ == v@[k]@,
        decreases v@.len() - i,
    {
        let c = v[i].clone();
        assert(c@ =~= v@[i as int]@);
        r.push(c);
        i += 1;
    }
    assert(r@.map_values(|v: Vec<SyntaxNode>| v@) =~= v@.map_values(|v: Vec<SyntaxNode>| v@));
    r
}

impl Clone for MarkdownTree {
    fn clone(&self) -> (r: Self)
        ensures
            r@ == self@,
            r.trees() == self.trees(),
            self.inv() ==> r.inv(),
    {
        let block = self.block.clone();
        assert(block@ =~= self.block@);
        let leaves = self.leaves.clone();
        assert(leaves@ =~= self.leaves@);
        let inline_trees = self.inline_trees.clone();
        assert(inline_trees@ =~= self.inline_trees@);
        MarkdownTree {
            block_tree: self.block_tree.clone(),
            inline_trees,
            block,
            inline: clone_nodes(&self.inline),
            leaves,
        }
    }
}

impl OldTrees {
    /// The nodes of the trees, as plain values, are those of a document.
    pub open spec fn hold(self, t: MarkdownTreeView) -> bool {
        &&& self.block matches Some(b) && t.block == plain_nodes(tree_nodes(b))
        &&& t.inline == self.inline.map_values(
            |x: tree_sitter::Tree| plain_nodes(tree_nodes(x)),
        )
    }

    /// The trees were told of a change: each has the nodes that the change makes of an old
    /// one.
    pub open spec fn told(self, old_trees: OldTrees, e: InputEdit) -> bool {
        &&& self.block matches Some(b) && old_trees.block matches Some(a) && tree_nodes(b)
            == edited_nodes(a, e)
        &&& self.inline.map_values(|t: tree_sitter::Tree| tree_nodes(t))
            == old_trees.inline.map_values(|t: tree_sitter::Tree| edited_nodes(t, e))
    }
}

impl MarkdownTreeView {
    /// Every leaf has its inline tree.
    pub open spec fn wf(self) -> bool {
        self.inline.len() == self.leaves.len()
    }

    /// The trees fit the text.
    pub open spec fn fits(self, text: Seq<u8>) -> bool {
        &&& tree_fits(self.block, text)
        &&& forall|k: int|
            0 <= k < self.inline.len() ==> tree_fits(#[trigger] self.inline[k], text)
    }

    /// The inline tree of the block node `parent`: that of the first leaf entry for it.
    pub open spec fn inline_index(self, parent: int, from: int) -> Option<int>
        decreases self.leaves.len() - from,
    {
        if from < 0 || from >= self.leaves.len() {
            None
        } else if self.leaves[from] == parent {
            Some(from)
        } else {
            self.inline_index(parent, from + 1)
        }
    }
}

/// The plain nodes of a vector of trees.
fn flatten_all(trees: &Vec<tree_sitter::Tree>) -> (r: Vec<Vec<SyntaxNode>>)
    ensures
        r@.len() == trees@.len(),
        forall|k: int|
            0 <= k < r@.len() ==> (#[trigger] r@[k])@ == tree_nodes(trees@[k]).map_values(
                |d: NodeData| node_of(d),
            ),
{
    let mut r: Vec<Vec<SyntaxNode>> = Vec::new();
    let mut i: usize = 0;
    while i < trees.len()
        invariant
            i <= trees@.len(),
            r@.len() == i,
            forall|k: int|
                0 <= k < r@.len() ==> (#[trigger] r@[k])@ == tree_nodes(trees@[k]).map_values(
                    |d: NodeData| node_of(d),
                ),
        decreases trees@.len() - i,
    {
        r.push(flatten(&trees[i]));
        i += 1;
    }
    r
}

impl MarkdownTree {
    /// Every leaf has its inline tree, and the nodes of the document are those of the trees
    /// that a next parse starts from.
    pub open spec fn inv(self) -> bool {
        &&& self@.wf()
        &&& self.trees().hold(self@)
    }

    /// The trees that a next parse can start from.
    pub closed spec fn trees(self) -> OldTrees {
        OldTrees { block: Some(self.block_tree), inline: self.inline_trees@ }
    }

    /// Tells the trees of a change of the text, so that they can help with the next
    /// parse.
    pub fn edit(&mut self, edit: &InputEdit)
        requires
            old(self).inv(),
        ensures
            final(self).inv(),
            final(self).trees().told(old(self).trees(), *edit),
            final(self)@.leaves == old(self)@.leaves,
            final(self)@.block == plain_nodes(
                edited_nodes(old(self).trees().block->Some_0, *edit),
            ),
            final(self)@.inline == old(self).trees().inline.map_values(
                |t: tree_sitter::Tree| plain_nodes(edited_nodes(t, *edit)),
            ),
            is_walk(depths_of(final(self)@.block)),
    {
        edit_tree(&mut self.block_tree, edit);
        let mut i: usize = 0;
        while i < self.inline_trees.len()
            invariant
                i <= self.inline_trees@.len(),
                self.inline_trees@.len() == old(self).inline_trees@.len(),
                self.leaves == old(self).leaves,
                tree_nodes(self.block_tree) == edited_nodes(old(self).block_tree, *edit),
                forall|k: int|
                    0 <= k < i ==> tree_nodes(#[trigger] self.inline_trees@[k]) == edited_nodes(
                        old(self).inline_trees@[k],
                        *edit,
                    ),
                forall|k: int|
                    i <= k < self.inline_trees@.len() ==> (#[trigger] self.inline_trees@[k])
                        == old(self).inline_trees@[k],
            decreases self.inline_trees@.len() - i,
        {
            edit_tree(&mut self.inline_trees[i], edit);
            i += 1;
        }
        self.block = flatten(&self.block_tree);
        self.inline = flatten_all(&self.inline_trees);
        assert(self@.inline =~= old(self).trees().inline.map_values(
            |t: tree_sitter::Tree| plain_nodes(edited_nodes(t, *edit)),
        ));
        assert(self.trees().inline.map_values(|t: tree_sitter::Tree| tree_nodes(t))
            =~= old(self).trees().inline.map_values(
            |t: tree_sitter::Tree| edited_nodes(t, *edit),
        ));
        assert(self@.inline =~= self.trees().inline.map_values(
            |x: tree_sitter::Tree| plain_nodes(tree_nodes(x)),
        ));
    }

    /// The nodes of the block tree.
    pub fn block_tree(&self) -> (r: &Vec<SyntaxNode>)
        ensures
            r@ == self@.block,
    {
        &self.block
    }

    /// The nodes of the inline tree of the block node with index `parent`.
    pub fn inline_tree(&self, parent: usize) -> (r: Option<&Vec<SyntaxNode>>)
        requires
            self.inv(),
        ensures
            match r {
                Some(t) => self@.inline_index(parent as int, 0) matches Some(k) && 0 <= k
                    < self@.inline.len() && t@ == self@.inline[k],
                None => self@.inline_index(parent as int, 0) is None,
            },
    {
        let mut k: usize = 0;
        while k < self.leaves.len()
            invariant
                self.inv(),
                k <= self.leaves@.len(),
                self@.inline_index(parent as int, 0) == self@.inline_index(
                    parent as int,
                    k as int,
                ),
            decreases self.leaves@.len() - k,
        {
            assert(self@.leaves[k as int] == self.leaves@[k as int]);
            if self.leaves[k] == parent {
                return Some(&self.inline[k]);
            }
            k += 1;
        }
        None
    }

    /// The nodes of every inline tree, in document order.
    pub fn inline_trees(&self) -> (r: &Vec<Vec<SyntaxNode>>)
        ensures
            r@.map_values(|v: Vec<SyntaxNode>| v@) == self@.inline,
    {
        &self.inline
    }
}

/// The leaves of a block tree.
fn find_leaves(nodes: &Vec<SyntaxNode>) -> (r: Vec<usize>)
    ensures
        lists(r@, leaves(nodes@)),
        forall|k: int| 0 <= k < r@.len() ==> (#[trigger] r@[k]) < nodes@.len(),
{
    let mut r: Vec<usize> = Vec::new();
    let n = nodes.len();
    if n == 0 {
        return r;
    }
    if is_leaf(nodes[0].kind) {
        return r;
    }
    let mut i: usize = 1;
    let ghost mut done: Seq<int> = seq![];
    assert(done + leaves_from(nodes@, 1) =~= leaves(nodes@));
    while i < n
        invariant
            n == nodes@.len(),
            1 <= i <= n,
            done + leaves_from(nodes@, i as int) == leaves(nodes@),
            lists(r@, done),
            forall|k: int| 0 <= k < r@.len() ==> (#[trigger] r@[k]) < nodes@.len(),
        decreases n - i,
    {
        if is_leaf(nodes[i].kind) {
            r.push(i);
            let e = end_of_subtree(nodes, i);
            proof {
                assert(done.push(i as int) + leaves_from(nodes@, e as int) =~= done
                    + leaves_from(nodes@, i as int));
                done = done.push(i as int);
            }
            i = e;
        } else {
            i += 1;
        }
    }
    assert(done + leaves_from(nodes@, i as int) =~= done);
    r
}

/// Whether a node of this kind gets an inline parse.
fn is_leaf(k: NodeKind) -> (r: bool)
    ensures
        r == is_leaf_kind(k),
{
    k == NodeKind::Inline || k == NodeKind::PipeTableCell
}

/// The parts of a leaf's text that the inline grammar reads.
fn carve(nodes: &Vec<SyntaxNode>, i: usize) -> (r: Vec<SourceRange>)
    requires
        i < nodes@.len(),
        nodes@[i as int].depth < usize::MAX,
    ensures
        r@ == inline_ranges(nodes@, i as int),
{
    let kids = children(nodes, i);
    let n = nodes[i];
    let mut rest = SourceRange {
        start: n.start,
        end: n.end,
        start_point: n.start_point,
        end_point: n.end_point,
    };
    let mut ranges: Vec<SourceRange> = Vec::new();
    let mut k: usize = 1;
    while k < kids.len()
        invariant
            lists(kids@, children_of(nodes@, i as int)),
            forall|x: int| 0 <= x < kids@.len() ==> (#[trigger] kids@[x]) < nodes@.len(),
            1 <= k,
            k <= kids@.len() || k == 1,
            ranges@ == carved_upto(nodes@, i as int, k as int).ranges,
            rest == carved_upto(nodes@, i as int, k as int).rest,
        decreases kids@.len() - k,
    {
        let child = nodes[kids[k]];
        if child.named {
            ranges.push(
                SourceRange {
                    start: rest.start,
                    end: child.start,
                    start_point: rest.start_point,
                    end_point: child.start_point,
                },
            );
            rest = SourceRange {
                start: child.end,
                end: rest.end,
                start_point: child.end_point,
                end_point: rest.end_point,
            };
        }
        k += 1;
    }
    ranges.push(rest);
    ranges
}

/// The trees of an optional document.
pub open spec fn trees_if_any(t: Option<&MarkdownTree>) -> OldTrees {
    match t {
        Some(t) => t.trees(),
        None => no_trees(),
    }
}

/// A parser for markdown documents.
pub struct MarkdownParser {
    parser: tree_sitter::Parser,
}

impl Default for MarkdownParser {
    fn default() -> Self {
        MarkdownParser { parser: crate::syntax::new_parser() }
    }
}

impl MarkdownParser {
    /// Parses `text`. An old tree that was told of the changes since makes it faster: the
    /// parser may take over parts of it. `None` means that the parser gave up, or that it
    /// gave nodes that are no ranges of the text.
    pub fn parse_with(&mut self, text: &[u8], old_tree: Option<&MarkdownTree>) -> (r: Option<
        MarkdownTree,
    >)
        ensures
            match r {
                Some(t) => parsed_after(trees_if_any(old_tree), text@) == Some(t@),
                None => parsed_after(trees_if_any(old_tree), text@) is None,
            },
            r matches Some(t) ==> t.inv() && t@.fits(text@) && t@.leaves == leaves(t@.block),
            r matches Some(t) ==> t.trees().hold(t@),
    {
        let ghost from = trees_if_any(old_tree);
        let old_block = match old_tree {
            Some(t) => Some(&t.block_tree),
            None => None,
        };
        let block_tree = match parse_block(&mut self.parser, text, old_block) {
            Some(t) => t,
            None => {
                return None;
            },
        };
        let block = flatten(&block_tree);
        let utf8 = is_utf8(text);
        if !check_fits(&block, text, utf8) {
            return None;
        }
        let found = find_leaves(&block);
        let ghost ls = leaves(block@);
        let mut inline_trees: Vec<tree_sitter::Tree> = Vec::new();
        let mut inline: Vec<Vec<SyntaxNode>> = Vec::new();
        let nblock = block.len();
        let mut k: usize = 0;
        assert(inline@.map_values(|v: Vec<SyntaxNode>| v@) =~= Seq::<Seq<SyntaxNode>>::empty());
        while k < found.len()
            invariant
                k <= found@.len(),
                nblock == block@.len(),
                utf8 == valid_utf8(text@),
                ls == leaves(block@),
                lists(found@, ls),
                forall|x: int| 0 <= x < found@.len() ==> (#[trigger] found@[x]) < block@.len(),
                tree_fits(block@, text@),
                inline@.len() == k,
                inline_trees@.len() == k,
                block@ == plain_nodes(tree_nodes(block_tree)),
                forall|x: int|
                    0 <= x < k ==> (#[trigger] inline@[x])@ == plain_nodes(
                        tree_nodes(inline_trees@[x]),
                    ),
                forall|x: int|
                    0 <= x < inline@.len() ==> tree_fits((#[trigger] inline@[x])@, text@),
                from == trees_if_any(old_tree),
                inline_upto(from, block@, text@, ls, k as int) == Some(
                    inline@.map_values(|v: Vec<SyntaxNode>| v@),
                ),
                fitting(parsed_nodes(false, seq![], text@, from.block), text@) == Some(block@),
            decreases found@.len() - k,
        {
            proof {
                lemma_depth_bound(block@, found@[k as int] as int);
            }
            let ranges = carve(&block, found[k]);
            let old_inline = match old_tree {
                Some(t) => {
                    if k < t.inline_trees.len() {
                        Some(&t.inline_trees[k])
                    } else {
                        None
                    }
                },
                None => None,
            };
            let tree = match parse_inline(&mut self.parser, &ranges, text, old_inline) {
                Some(t) => t,
                None => {
                    proof {
                        lemma_inline_upto_none(from, block@, text@, ls, k + 1, ls.len() as int);
                    }
                    return None;
                },
            };
            let nodes = flatten(&tree);
            if !check_fits(&nodes, text, utf8) {
                proof {
                    lemma_inline_upto_none(from, block@, text@, ls, k + 1, ls.len() as int);
                }
                return None;
            }
            let ghost before = inline@;
            inline_trees.push(tree);
            inline.push(nodes);
            assert(inline@.map_values(|v: Vec<SyntaxNode>| v@) =~= before.map_values(
                |v: Vec<SyntaxNode>| v@,
            ).push(nodes@));
            k += 1;
        }
        let t = MarkdownTree { block_tree, inline_trees, block, inline, leaves: found };
        assert(t@.leaves =~= ls);
        assert(t@.inline =~= t.trees().inline.map_values(
            |x: tree_sitter::Tree| plain_nodes(tree_nodes(x)),
        ));
        assert(depths_of(t@.block).len() == t@.block.len());
        Some(t)
    }

    /// Parses a text.
    pub fn parse(&mut self, text: &[u8], old_tree: Option<&MarkdownTree>) -> (r: Option<
        MarkdownTree,
    >)
        ensures
            match r {
                Some(t) => parsed_after(trees_if_any(old_tree), text@) == Some(t@),
                None => parsed_after(trees_if_any(old_tree), text@) is None,
            },
            r matches Some(t) ==> t.inv() && t@.fits(text@) && t@.leaves == leaves(t@.block),
            r matches Some(t) ==> t.trees().hold(t@),
    {
        self.parse_with(text, old_tree)
    }

    /// Parses the text of a rope.
    pub fn parse_rope(&mut self, rope: &ropey::Rope, old_tree: Option<&MarkdownTree>) -> (r: Option<
        MarkdownTree,
    >)
        ensures
            match r {
                Some(t) => parsed_after(trees_if_any(old_tree), rope_bytes(*rope)) == Some(t@),
                None => parsed_after(trees_if_any(old_tree), rope_bytes(*rope)) is None,
            },
            r matches Some(t) ==> t.inv() && t@.fits(rope_bytes(*rope)) && t@.leaves == leaves(
                t@.block,
            ),
            r matches Some(t) ==> t.trees().hold(t@),
    {
        proof {
            encode_utf8_valid_utf8(rope_text(*rope));
            is_char_boundary_start_end_of_seq(rope_bytes(*rope));
        }
        let text = rope_slice(rope, 0, rope_len(rope));
        assert(encode_utf8(text@) =~= rope_bytes(*rope));
        self.parse_with(text.as_str().as_bytes(), old_tree)
    }
}

proof fn lemma_inline_upto_none(
    from: OldTrees,
    block: Seq<SyntaxNode>,
    text: Seq<u8>,
    ls: Seq<int>,
    k: int,
    n: int,
)
    requires
        inline_upto(from, block, text, ls, k) is None,
        k <= n,
    ensures
        inline_upto(from, block, text, ls, n) is None,
    decreases n - k,
{
    if k < n {
        if k > 0 {
            lemma_inline_upto_none(from, block, text, ls, k, n - 1);
        }
    }
}

// ---------------------------------------------------------------------------
// Laws
// ---------------------------------------------------------------------------

/// The leaves from a node on: inline text and table cells are leaves, and what is below a
/// leaf is passed over; every other node is passed through.
pub proof fn law_leaves_in_turn(nodes: Seq<SyntaxNode>, i: int)
    requires
        0 <= i < nodes.len(),
    ensures
        nodes[i].kind == NodeKind::Inline || nodes[i].kind == NodeKind::PipeTableCell
            ==> leaves_from(nodes, i).len() > 0 && leaves_from(nodes, i)[0] == i && leaves_from(
            nodes,
            i,
        ).drop_first() == leaves_from(nodes, subtree_end(depths_of(nodes), i)),
        nodes[i].kind != NodeKind::Inline && nodes[i].kind != NodeKind::PipeTableCell
            ==> leaves_from(nodes, i) == leaves_from(nodes, i + 1),
{
    if is_leaf_kind(nodes[i].kind) {
        assert(leaves_from(nodes, i).drop_first() =~= leaves_from(
            nodes,
            subtree_end(depths_of(nodes), i),
        ));
    }
}

/// Every leaf of a document is of a leaf kind, and they come in order.
pub proof fn law_leaves_are_leaves(nodes: Seq<SyntaxNode>, k: int)
    requires
        is_walk(depths_of(nodes)),
        0 <= k < leaves(nodes).len(),
    ensures
        0 < leaves(nodes)[k] < nodes.len(),
        nodes[leaves(nodes)[k]].kind == NodeKind::Inline || nodes[leaves(nodes)[k]].kind
            == NodeKind::PipeTableCell,
        k > 0 ==> subtree_end(depths_of(nodes), leaves(nodes)[k - 1]) <= leaves(nodes)[k],
{
    lemma_leaves_from(nodes, 1, k);
}

proof fn lemma_leaves_from(nodes: Seq<SyntaxNode>, i: int, k: int)
    requires
        is_walk(depths_of(nodes)),
        0 <= i,
        0 <= k < leaves_from(nodes, i).len(),
    ensures
        i <= leaves_from(nodes, i)[k] < nodes.len(),
        is_leaf_kind(nodes[leaves_from(nodes, i)[k]].kind),
        k > 0 ==> subtree_end(depths_of(nodes), leaves_from(nodes, i)[k - 1]) <= leaves_from(
            nodes,
            i,
        )[k],
    decreases nodes.len() - i,
{
    if i < nodes.len() {
        if is_leaf_kind(nodes[i].kind) {
            lemma_children(nodes, i);
            let e = subtree_end(depths_of(nodes), i);
            let rest = leaves_from(nodes, e);
            if k > 0 {
                lemma_leaves_from(nodes, e, k - 1);
                assert(leaves_from(nodes, i)[k] == rest[k - 1]);
                if k > 1 {
                    assert(leaves_from(nodes, i)[k - 1] == rest[k - 2]);
                }
            }
        } else {
            lemma_leaves_from(nodes, i + 1, k);
        }
    }
}

/// The text of a leaf is all of its range, but for its named children behind the first: it is
/// cut round each of them.
pub proof fn law_inline_ranges(nodes: Seq<SyntaxNode>, i: int)
    ensures
        ({
            let kids = children_of(nodes, i);
            let r = inline_ranges(nodes, i);
            let n = nodes[i];
            &&& kids.len() <= 1 ==> r.len() == 1 && r[0].start == n.start && r[0].end == n.end
                && r[0].start_point == n.start_point && r[0].end_point == n.end_point
            &&& kids.len() == 2 && !nodes[kids[1]].named ==> r.len() == 1 && r[0].start == n.start
                && r[0].end == n.end
            &&& kids.len() == 2 && nodes[kids[1]].named ==> {
                let c = nodes[kids[1]];
                &&& r.len() == 2
                &&& r[0].start == n.start && r[0].start_point == n.start_point
                &&& r[0].end == c.start && r[0].end_point == c.start_point
                &&& r[1].start == c.end && r[1].start_point == c.end_point
                &&& r[1].end == n.end && r[1].end_point == n.end_point
            }
        }),
{
    reveal_with_fuel(carved_upto, 3);
}

/// Each named child further back cuts the last range in two.
pub proof fn law_children_cut_the_text(nodes: Seq<SyntaxNode>, i: int, k: int)
    requires
        1 <= k < children_of(nodes, i).len(),
    ensures
        ({
            let before = carved_upto(nodes, i, k);
            let after = carved_upto(nodes, i, k + 1);
            let c = nodes[children_of(nodes, i)[k]];
            &&& !c.named ==> after == before
            &&& c.named ==> {
                &&& after.ranges.drop_last() == before.ranges
                &&& after.ranges.last().start == before.rest.start && after.ranges.last().end
                    == c.start
                &&& after.rest.start == c.end && after.rest.end == before.rest.end
            }
        }),
{
    let before = carved_upto(nodes, i, k);
    let after = carved_upto(nodes, i, k + 1);
    if nodes[children_of(nodes, i)[k]].named {
        assert(after.ranges.drop_last() =~= before.ranges);
    }
}

/// The inline tree of a node is that of the first leaf that it is.
pub proof fn law_inline_trees_by_node(t: MarkdownTreeView, parent: int, k: int)
    requires
        0 <= k < t.leaves.len(),
        forall|j: int| 0 <= j < k ==> #[trigger] t.leaves[j] != parent,
    ensures
        t.leaves[k] == parent ==> t.inline_index(parent, 0) == Some(k),
        (forall|j: int| 0 <= j < t.leaves.len() ==> #[trigger] t.leaves[j] != parent)
            ==> t.inline_index(parent, 0) is None,
{
    lemma_index_skip(t, parent, 0, k);
    if forall|j: int| 0 <= j < t.leaves.len() ==> #[trigger] t.leaves[j] != parent {
        lemma_index_skip(t, parent, 0, t.leaves.len() as int);
    }
}

proof fn lemma_index_skip(t: MarkdownTreeView, parent: int, from: int, to: int)
    requires
        0 <= from <= to <= t.leaves.len(),
        forall|j: int| from <= j < to ==> #[trigger] t.leaves[j] != parent,
    ensures
        t.inline_index(parent, from) == t.inline_index(parent, to),
    decreases to - from,
{
    if from < to {
        assert(t.leaves[from] != parent);
        lemma_index_skip(t, parent, from + 1, to);
    }
}

} // verus!
