use vstd::prelude::*;

verus! {

/// Index of a node in a [`SlowPool`].
pub type SlowNodeId = usize;

/// Index of an expression in the syntax tree's pool.
pub type ExprId = usize;

/// How a piece of markup is highlighted.
#[derive(Clone, Copy, Debug, PartialEq, Eq, Structural)]
pub enum HighlightStyle {
    Operator,
    String,
    FunctionName,
    Type,
    Bracket,
    Number,
    PackageRelated,
    Variable,
    RecordField,
    Blank,
}

/// A mark placed in a piece of markup, at a column offset within it.
#[derive(Clone, Copy, Debug, PartialEq, Eq, Structural)]
pub enum Attribute {
    Caret { offset_col: usize },
    SelectionStart { offset_col: usize },
    SelectionEnd { offset_col: usize },
}

/// The marks placed in a piece of markup.
#[derive(Clone, Debug, PartialEq, Eq)]
pub struct Attributes {
    pub all: Vec<Attribute>,
}

impl Attributes {
    /// No marks.
    pub fn new() -> (r: Attributes)
        ensures
            r.all@ == Seq::<Attribute>::empty(),
    {
        Attributes { all: Vec::new() }
    }
}

/// A node of the markup tree that the editor renders.
#[derive(Debug)]
pub enum MarkupNode {
    Nested {
        ast_node_id: ExprId,
        children_ids: Vec<SlowNodeId>,
        parent_id_opt: Option<SlowNodeId>,
    },
    Text {
        content: String,
        ast_node_id: ExprId,
        syn_high_style: HighlightStyle,
        attributes: Attributes,
        parent_id_opt: Option<SlowNodeId>,
    },
    Blank {
        ast_node_id: ExprId,
        attributes: Attributes,
        syn_high_style: HighlightStyle,
        parent_id_opt: Option<SlowNodeId>,
    },
}

/// The children of `n`: none unless it is nested.
pub open spec fn children_of(n: MarkupNode) -> Seq<SlowNodeId> {
    match n {
        MarkupNode::Nested { children_ids, .. } => children_ids@,
        _ => Seq::empty(),
    }
}

/// The parent recorded in `n`.
pub open spec fn parent_of(n: MarkupNode) -> Option<SlowNodeId> {
    match n {
        MarkupNode::Nested { parent_id_opt, .. } => parent_id_opt,
        MarkupNode::Text { parent_id_opt, .. } => parent_id_opt,
        MarkupNode::Blank { parent_id_opt, .. } => parent_id_opt,
    }
}

/// `n` with its recorded parent replaced by `p`.
pub open spec fn with_parent(n: MarkupNode, p: Option<SlowNodeId>) -> MarkupNode {
    match n {
        MarkupNode::Nested { ast_node_id, children_ids, .. } => MarkupNode::Nested {
            ast_node_id,
            children_ids,
            parent_id_opt: p,
        },
        MarkupNode::Text { content, ast_node_id, syn_high_style, attributes, .. } =>
            MarkupNode::Text { content, ast_node_id, syn_high_style, attributes, parent_id_opt: p },
        MarkupNode::Blank { ast_node_id, attributes, syn_high_style, .. } => MarkupNode::Blank {
            ast_node_id,
            attributes,
            syn_high_style,
            parent_id_opt: p,
        },
    }
}

/// The children of each node of `nodes`.
pub open spec fn child_table(nodes: Seq<MarkupNode>) -> Seq<Seq<SlowNodeId>> {
    nodes.map_values(|n: MarkupNode| children_of(n))
}

/// In the subtree of `root`, given by the children table `table`, every child is a
/// node that stands before its parent: the subtree is finite and free of cycles.
pub open spec fn children_first_below(table: Seq<Seq<SlowNodeId>>, root: nat) -> bool {
    &&& root < table.len()
    &&& forall|k: int| 0 <= k < table[root as int].len() ==> #[trigger] table[root as int][k] < root
    &&& forall|n: nat, k: int|
        #[trigger] below(table, root, n) && 0 <= k < table[n as int].len() ==> #[trigger] table[n as int][k]
            < n
}

/// Node `d` lies below node `a` in a pool whose children table is `table`: it is a
/// child of `a`, or lies below one.
pub open spec fn below(table: Seq<Seq<SlowNodeId>>, a: nat, d: nat) -> bool
    decreases a,
{
    exists|k: int|
        0 <= k < table[a as int].len() && #[trigger] table[a as int][k] < a && (table[a as int][k]
            == d || below(table, table[a as int][k] as nat, d))
}

/// What giving every node below `root` its parent leaves as `new`, from `old`: nodes
/// elsewhere are unchanged; nodes below keep all but their parent; and each node
/// below records as its parent `root` or a node below it that lists it as a child.
pub open spec fn parents_set_below(old: Seq<MarkupNode>, new: Seq<MarkupNode>, root: nat) -> bool {
    let table = child_table(old);
    &&& new.len() == old.len()
    &&& child_table(new) == table
    &&& forall|i: nat|
        i < old.len() && !below(table, root, i) && i != root ==> #[trigger] new[i as int]
            == old[i as int]
    &&& forall|i: nat|
        i < old.len() && #[trigger] below(table, root, i) ==> {
            &&& new[i as int] == with_parent(old[i as int], parent_of(new[i as int]))
            &&& exists|p: nat|
                p < old.len() && (p == root || below(table, root, p)) && #[trigger] table[p as int].contains(
                    i as SlowNodeId,
                ) && parent_of(new[i as int]) == Some(p as SlowNodeId)
        }
}

/// `n` lies in the subtree of one of the first `i` nodes of `cs`.
spec fn in_subtrees(table: Seq<Seq<SlowNodeId>>, cs: Seq<SlowNodeId>, i: int, n: nat) -> bool {
    exists|k: int| 0 <= k < i && (#[trigger] cs[k] == n || below(table, cs[k] as nat, n))
}

proof fn lemma_below_smaller(table: Seq<Seq<SlowNodeId>>, a: nat, d: nat)
    requires
        below(table, a, d),
    ensures
        d < a,
    decreases a,
{
    let k = choose|k: int|
        0 <= k < table[a as int].len() && #[trigger] table[a as int][k] < a && (table[a as int][k]
            == d || below(table, table[a as int][k] as nat, d));
    let c = table[a as int][k];
    if c != d {
        lemma_below_smaller(table, c as nat, d);
    }
}

/// The arena that holds the markup tree's nodes.
pub struct SlowPool {
    nodes: Vec<MarkupNode>,
}

impl View for SlowPool {
    type V = Seq<MarkupNode>;

    closed spec fn view(&self) -> Seq<MarkupNode> {
        self.nodes@
    }
}

impl SlowPool {
    /// An empty pool.
    pub fn new() -> (r: SlowPool)
        ensures
            r@ == Seq::<MarkupNode>::empty(),
    {
        SlowPool { nodes: Vec::new() }
    }

    /// Number of nodes.
    pub fn len(&self) -> (r: usize)
        ensures
            r == self@.len(),
    {
        self.nodes.len()
    }

    /// Adds `node`, returning its index.
    pub fn add(&mut self, node: MarkupNode) -> (id: SlowNodeId)
        ensures
            id == old(self)@.len(),
            final(self)@ == old(self)@.push(node),
    {
        let id = self.nodes.len();
        self.nodes.push(node);
        id
    }

    /// The node at `id`.
    pub fn get(&self, id: SlowNodeId) -> (r: &MarkupNode)
        requires
            id < self@.len(),
        ensures
            *r == self@[id as int],
    {
        &self.nodes[id]
    }

    /// The node at `id`, to change in place.
    pub fn get_mut(&mut self, id: SlowNodeId) -> (r: &mut MarkupNode)
        requires
            id < old(self)@.len(),
        ensures
            *r == old(self)@[id as int],
            final(self)@ == old(self)@.update(id as int, *final(r)),
    {
        &mut self.nodes[id]
    }
}

fn copy_ids(ids: &Vec<SlowNodeId>) -> (r: Vec<SlowNodeId>)
    ensures
        r@ == ids@,
{
    let mut r: Vec<SlowNodeId> = Vec::new();
    let mut i: usize = 0;
    while i < ids.len()
        invariant
            i <= ids.len(),
            r@ == ids@.subrange(0, i as int),
        decreases ids.len() - i,
    {
        r.push(ids[i]);
        i = i + 1;
    }
    assert(r@ =~= ids@);
    r
}

/// Adds a text node without marks and without a parent, returning its index.
pub fn new_markup_node(
    text: String,
    node_id: ExprId,
    highlight_style: HighlightStyle,
    markup_node_pool: &mut SlowPool,
) -> (id: SlowNodeId)
    ensures
        id == old(markup_node_pool)@.len(),
        final(markup_node_pool)@.len() == old(markup_node_pool)@.len() + 1,
        forall|i: int|
            0 <= i < old(markup_node_pool)@.len() ==> #[trigger] final(markup_node_pool)@[i]
                == old(markup_node_pool)@[i],
        final(markup_node_pool)@[id as int] matches MarkupNode::Text {
            content,
            ast_node_id,
            syn_high_style,
            attributes,
            parent_id_opt,
        } && content == text && ast_node_id == node_id && syn_high_style == highlight_style
            && attributes.all@.len() == 0 && parent_id_opt is None,
{
    let node = MarkupNode::Text {
        content: text,
        ast_node_id: node_id,
        syn_high_style: highlight_style,
        attributes: Attributes::new(),
        parent_id_opt: None,
    };
    markup_node_pool.add(node)
}

/// Gives each node below node `markup_node_id` its parent, through the children
/// `children_ids` of that node.
fn set_parent_for_children(
    markup_node_id: SlowNodeId,
    children_ids: &Vec<SlowNodeId>,
    markup_node_pool: &mut SlowPool,
)
    requires
        children_first_below(child_table(old(markup_node_pool)@), markup_node_id as nat),
        children_ids@ == children_of(old(markup_node_pool)@[markup_node_id as int]),
    ensures
        parents_set_below(old(markup_node_pool)@, final(markup_node_pool)@, markup_node_id as nat),
        final(markup_node_pool)@[markup_node_id as int] == old(markup_node_pool)@[markup_node_id as int],
    decreases markup_node_id, 0nat,
{
    let ghost old_nodes = markup_node_pool@;
    let ghost table = child_table(old_nodes);
    let ghost id = markup_node_id as nat;
    let ghost cs = children_ids@;
    proof {
        assert(table[id as int] == children_of(old_nodes[id as int]));
        assert(child_table(markup_node_pool@) =~= table);
    }
    let mut i: usize = 0;
    while i < children_ids.len()
        invariant
            children_first_below(table, id),
            table == child_table(old_nodes),
            table.len() == old_nodes.len(),
            id == markup_node_id as nat,
            id < old_nodes.len(),
            cs == children_ids@,
            cs == table[id as int],
            i <= cs.len(),
            markup_node_pool@.len() == old_nodes.len(),
            child_table(markup_node_pool@) == table,
            forall|n: nat|
                n < old_nodes.len() && !in_subtrees(table, cs, i as int, n) ==> #[trigger] markup_node_pool@[n as int]
                    == old_nodes[n as int],
            forall|n: nat|
                n < old_nodes.len() && #[trigger] in_subtrees(table, cs, i as int, n) ==> {
                    &&& markup_node_pool@[n as int] == with_parent(
                        old_nodes[n as int],
                        parent_of(markup_node_pool@[n as int]),
                    )
                    &&& exists|p: nat|
                        p < old_nodes.len() && (p == id || below(table, id, p))
                            && #[trigger] table[p as int].contains(n as SlowNodeId) && parent_of(
                            markup_node_pool@[n as int],
                        ) == Some(p as SlowNodeId)
                },
        decreases cs.len() - i,
    {
        let child_id = children_ids[i];
        let ghost before = markup_node_pool@;
        proof {
            assert(table[id as int][i as int] == child_id);
            assert(children_of(old_nodes[id as int])[i as int] == child_id);
            assert(child_id < id);
            assert(below(table, id, child_id as nat));
            assert forall|n: nat, k: int|
                #[trigger] below(table, child_id as nat, n) && 0 <= k < table[n as int].len() implies #[trigger] table[n as int][k]
                < n by {
                assert(below(table, id, n));
            }
            assert(children_first_below(child_table(before), child_id as nat));
        }
        set_parent_for_all_helper(child_id, markup_node_id, markup_node_pool);
        proof {
            let after = markup_node_pool@;
            let c = child_id as nat;
            assert(cs[i as int] == child_id);
            assert(below(table, id, c));
            assert forall|n: nat|
                n < old_nodes.len() && !in_subtrees(table, cs, i + 1, n) implies #[trigger] after[n as int]
                == old_nodes[n as int] by {
                assert(n != c);
                if below(table, c, n) {
                    assert(in_subtrees(table, cs, i + 1, n));
                }
                if in_subtrees(table, cs, i as int, n) {
                    let k = choose|k: int|
                        0 <= k < i && (#[trigger] cs[k] == n || below(table, cs[k] as nat, n));
                    assert(in_subtrees(table, cs, i + 1, n));
                }
            }
            assert forall|n: nat|
                n < old_nodes.len() && #[trigger] in_subtrees(table, cs, i + 1, n) implies {
                &&& after[n as int] == with_parent(old_nodes[n as int], parent_of(after[n as int]))
                &&& exists|p: nat|
                    p < old_nodes.len() && (p == id || below(table, id, p))
                        && #[trigger] table[p as int].contains(n as SlowNodeId) && parent_of(
                        after[n as int],
                    ) == Some(p as SlowNodeId)
            } by {
                if n == c {
                    assert(table[id as int].contains(n as SlowNodeId));
                    assert(after[n as int] == with_parent(before[n as int], Some(markup_node_id)));
                } else if below(table, c, n) {
                    let p = choose|p: nat|
                        p < old_nodes.len() && (p == c || below(table, c, p))
                            && #[trigger] table[p as int].contains(n as SlowNodeId) && parent_of(
                            after[n as int],
                        ) == Some(p as SlowNodeId);
                    if p != c {
                        assert(below(table, id, p));
                    }
                    if !in_subtrees(table, cs, i as int, n) {
                        assert(before[n as int] == old_nodes[n as int]);
                    }
                } else {
                    let k = choose|k: int|
                        0 <= k < i + 1 && (#[trigger] cs[k] == n || below(table, cs[k] as nat, n));
                    assert(k != i);
                    assert(in_subtrees(table, cs, i as int, n));
                }
            }
        }
        i = i + 1;
    }
    proof {
        assert forall|n: nat| n < old_nodes.len() implies (in_subtrees(table, cs, cs.len() as int, n)
            <==> below(table, id, n)) by {
            if below(table, id, n) {
                let k = choose|k: int|
                    0 <= k < table[id as int].len() && #[trigger] table[id as int][k] < id && (
                    table[id as int][k] == n || below(table, table[id as int][k] as nat, n));
                assert(cs[k] == table[id as int][k]);
            }
            if in_subtrees(table, cs, cs.len() as int, n) {
                let k = choose|k: int|
                    0 <= k < cs.len() && (#[trigger] cs[k] == n || below(table, cs[k] as nat, n));
                assert(children_of(old_nodes[id as int])[k] < id);
            }
        }
        if in_subtrees(table, cs, cs.len() as int, id) {
            assert(below(table, id, id));
            lemma_below_smaller(table, id, id);
        }
    }
}

/// Records `parent_node_id` as the parent of node `markup_node_id`, and each node
/// below it as the parent of its children.
pub fn set_parent_for_all_helper(
    markup_node_id: SlowNodeId,
    parent_node_id: SlowNodeId,
    markup_node_pool: &mut SlowPool,
)
    requires
        children_first_below(child_table(old(markup_node_pool)@), markup_node_id as nat),
    ensures
        parents_set_below(old(markup_node_pool)@, final(markup_node_pool)@, markup_node_id as nat),
        final(markup_node_pool)@[markup_node_id as int] == with_parent(
            old(markup_node_pool)@[markup_node_id as int],
            Some(parent_node_id),
        ),
    decreases markup_node_id, 1nat,
{
    let ghost old_nodes = markup_node_pool@;
    let node = markup_node_pool.get_mut(markup_node_id);
    let children_ids_clone = match node {
        MarkupNode::Nested { children_ids, parent_id_opt, .. } => {
            *parent_id_opt = Some(parent_node_id);
            copy_ids(children_ids)
        },
        MarkupNode::Text { parent_id_opt, .. } => {
            *parent_id_opt = Some(parent_node_id);
            Vec::new()
        },
        MarkupNode::Blank { parent_id_opt, .. } => {
            *parent_id_opt = Some(parent_node_id);
            Vec::new()
        },
    };
    let ghost mid = markup_node_pool@;
    proof {
        assert(child_table(mid) =~= child_table(old_nodes));
    }
    set_parent_for_children(markup_node_id, &children_ids_clone, markup_node_pool);
    proof {
        let new = markup_node_pool@;
        let table = child_table(old_nodes);
        let id = markup_node_id as nat;
        assert forall|n: nat| n < old_nodes.len() && n != id implies #[trigger] mid[n as int]
            == old_nodes[n as int] by {}
        assert forall|n: nat|
            n < old_nodes.len() && #[trigger] below(table, id, n) implies new[n as int] == with_parent(
            old_nodes[n as int],
            parent_of(new[n as int]),
        ) by {
            lemma_below_smaller(table, id, n);
        }
    }
}

/// Records, for every node below node `markup_node_id`, the node that lists it as a
/// child as its parent.
pub fn set_parent_for_all(markup_node_id: SlowNodeId, markup_node_pool: &mut SlowPool)
    requires
        children_first_below(child_table(old(markup_node_pool)@), markup_node_id as nat),
    ensures
        parents_set_below(old(markup_node_pool)@, final(markup_node_pool)@, markup_node_id as nat),
        final(markup_node_pool)@[markup_node_id as int] == old(markup_node_pool)@[markup_node_id as int],
{
    let node = markup_node_pool.get(markup_node_id);
    if let MarkupNode::Nested { children_ids, .. } = node {
        // The children are copied, as the walk changes the pool that holds them.
        let children_ids_clone = copy_ids(children_ids);
        set_parent_for_children(markup_node_id, &children_ids_clone, markup_node_pool);
    } else {
        proof {
            let table = child_table(markup_node_pool@);
            let id = markup_node_id as nat;
            assert(table[id as int] == children_of(markup_node_pool@[id as int]));
            assert forall|n: nat| !below(table, id, n) by {}
        }
    }
}

} // verus!
