//! The realm tree: the navigation hierarchy of the portal, built in one pass
//! from the rows stored in the database and immutable once built.
//!
//! Nodes live in a flat arena; parents and children refer to each other by
//! their index in it.
use vstd::prelude::*;

verus! {

/// One stored realm, as read from the database.
pub struct RealmRow {
    pub id: u64,
    pub parent: Option<u64>,
    pub name: String,
    pub path_segment: String,
    pub order_index: i32,
}

/// Why a set of rows does not form a realm tree.
#[derive(PartialEq, Eq, Structural, Clone, Copy, Debug)]
pub enum TreeError {
    /// Two rows carry the same id.
    DuplicateId,
    /// No row lacks a parent, so there is no root.
    NoRoot,
    /// More than one row lacks a parent.
    MultipleRoots,
    /// A row names a parent id that no row carries.
    MissingParent,
    /// Following parents from some row never reaches the root.
    Cycle,
    /// Two rows with the same parent have the same path segment.
    DuplicatePathSegment,
}

pub open spec fn ids_unique(rows: Seq<RealmRow>) -> bool {
    forall|i: int, j: int|
        0 <= i < rows.len() && 0 <= j < rows.len() && i != j ==> #[trigger] rows[i].id
            != #[trigger] rows[j].id
}

pub open spec fn has_id(rows: Seq<RealmRow>, id: u64) -> bool {
    exists|j: int| 0 <= j < rows.len() && #[trigger] rows[j].id == id
}

/// The position of the row carrying `id`; meaningful where `has_id` holds.
pub open spec fn index_of(rows: Seq<RealmRow>, id: u64) -> int {
    choose|j: int| 0 <= j < rows.len() && #[trigger] rows[j].id == id
}

/// How many rows lack a parent.
pub open spec fn count_roots(rows: Seq<RealmRow>) -> nat
    decreases rows.len(),
{
    if rows.len() == 0 {
        0
    } else {
        count_roots(rows.drop_last()) + if rows.last().parent is None {
            1nat
        } else {
            0nat
        }
    }
}

pub open spec fn parents_exist(rows: Seq<RealmRow>) -> bool {
    forall|i: int|
        0 <= i < rows.len() && #[trigger] rows[i].parent is Some ==> has_id(
            rows,
            rows[i].parent->Some_0,
        )
}

/// The position of the parent of row `i`, if it has one that exists.
pub open spec fn parent_index(rows: Seq<RealmRow>, i: int) -> Option<int> {
    match rows[i].parent {
        None => None,
        Some(p) => if has_id(rows, p) {
            Some(index_of(rows, p))
        } else {
            None
        },
    }
}

/// Following parents from row `i`, a parentless row is reached within `fuel`
/// steps.
pub open spec fn reaches_root(rows: Seq<RealmRow>, i: int, fuel: nat) -> bool
    decreases fuel,
{
    match parent_index(rows, i) {
        None => rows[i].parent is None,
        Some(j) => fuel > 0 && reaches_root(rows, j, (fuel - 1) as nat),
    }
}

/// Rows under the same parent differ in their path segment.
pub open spec fn segments_unique(rows: Seq<RealmRow>) -> bool {
    forall|i: int, j: int|
        0 <= i < rows.len() && 0 <= j < rows.len() && i != j && #[trigger] rows[i].parent
            == #[trigger] rows[j].parent ==> rows[i].path_segment@ != rows[j].path_segment@
}

pub open spec fn acyclic(rows: Seq<RealmRow>) -> bool {
    forall|i: int| 0 <= i < rows.len() ==> #[trigger] reaches_root(rows, i, rows.len())
}

/// The structural violation in `rows`, if any, checked in this order.
pub open spec fn build_error(rows: Seq<RealmRow>) -> Option<TreeError> {
    if !ids_unique(rows) {
        Some(TreeError::DuplicateId)
    } else if count_roots(rows) == 0 {
        Some(TreeError::NoRoot)
    } else if count_roots(rows) > 1 {
        Some(TreeError::MultipleRoots)
    } else if !parents_exist(rows) {
        Some(TreeError::MissingParent)
    } else if !acyclic(rows) {
        Some(TreeError::Cycle)
    } else if !segments_unique(rows) {
        Some(TreeError::DuplicatePathSegment)
    } else {
        None
    }
}

/// Rows with no parentless row, or with more than one, are not a tree: with
/// distinct ids the build reports exactly that, and otherwise the duplicate
/// id.
pub proof fn lemma_single_root_required(rows: Seq<RealmRow>)
    requires
        count_roots(rows) != 1,
    ensures
        build_error(rows) is Some,
        ids_unique(rows) && count_roots(rows) == 0 ==> build_error(rows) == Some(
            TreeError::NoRoot,
        ),
        ids_unique(rows) && count_roots(rows) > 1 ==> build_error(rows) == Some(
            TreeError::MultipleRoots,
        ),
{
}

fn check_ids_unique(rows: &Vec<RealmRow>) -> (r: bool)
    ensures
        r == ids_unique(rows@),
{
    let n = rows.len();
    let mut i: usize = 0;
    while i < n
        invariant
            n == rows@.len(),
            i <= n,
            forall|a: int, b: int|
                0 <= a < i && 0 <= b < n && a != b ==> #[trigger] rows@[a].id
                    != #[trigger] rows@[b].id,
        decreases n - i,
    {
        let mut j: usize = 0;
        while j < n
            invariant
                n == rows@.len(),
                i < n,
                j <= n,
                forall|a: int, b: int|
                    0 <= a < i && 0 <= b < n && a != b ==> #[trigger] rows@[a].id
                        != #[trigger] rows@[b].id,
                forall|b: int| 0 <= b < j && i != b ==> rows@[i as int].id != #[trigger] rows@[b].id,
            decreases n - j,
        {
            if i != j && rows[i].id == rows[j].id {
                assert(rows@[i as int].id == rows@[j as int].id);
                return false;
            }
            j = j + 1;
        }
        i = i + 1;
    }
    true
}

fn check_segments_unique(rows: &Vec<RealmRow>) -> (r: bool)
    ensures
        r == segments_unique(rows@),
{
    let n = rows.len();
    let mut i: usize = 0;
    while i < n
        invariant
            n == rows@.len(),
            i <= n,
            forall|a: int, b: int|
                0 <= a < i && 0 <= b < n && a != b && #[trigger] rows@[a].parent
                    == #[trigger] rows@[b].parent ==> rows@[a].path_segment@
                    != rows@[b].path_segment@,
        decreases n - i,
    {
        let mut j: usize = 0;
        while j < n
            invariant
                n == rows@.len(),
                i < n,
                j <= n,
                forall|a: int, b: int|
                    0 <= a < i && 0 <= b < n && a != b && #[trigger] rows@[a].parent
                        == #[trigger] rows@[b].parent ==> rows@[a].path_segment@
                        != rows@[b].path_segment@,
                forall|b: int|
                    0 <= b < j && i != b && rows@[i as int].parent == #[trigger] rows@[b].parent
                        ==> rows@[i as int].path_segment@ != rows@[b].path_segment@,
            decreases n - j,
        {
            if i != j && rows[i].parent == rows[j].parent && rows[i].path_segment
                == rows[j].path_segment {
                return false;
            }
            j = j + 1;
        }
        i = i + 1;
    }
    true
}

/// The number of parentless rows, capped at two, and the position of the
/// last one seen.
fn find_root(rows: &Vec<RealmRow>) -> (r: (usize, usize))
    ensures
        r.0 == if count_roots(rows@) > 1 { 2 } else { count_roots(rows@) },
        r.0 == 1 ==> r.1 < rows@.len() && rows@[r.1 as int].parent is None,
{
    let n = rows.len();
    let mut count: usize = 0;
    let mut root: usize = 0;
    let mut i: usize = 0;
    while i < n
        invariant
            n == rows@.len(),
            i <= n,
            count == if count_roots(rows@.take(i as int)) > 1 {
                2
            } else {
                count_roots(rows@.take(i as int))
            },
            count == 1 ==> root < i && rows@[root as int].parent is None,
        decreases n - i,
    {
        assert(rows@.take(i + 1).drop_last() =~= rows@.take(i as int));
        if rows[i].parent.is_none() {
            if count < 2 {
                count = count + 1;
            }
            root = i;
        }
        i = i + 1;
    }
    assert(rows@.take(n as int) =~= rows@);
    (count, root)
}

/// The position of the row carrying `id`, if any.
fn position_of(rows: &Vec<RealmRow>, id: u64) -> (r: Option<usize>)
    ensures
        r is None <==> !has_id(rows@, id),
        r is Some ==> r->Some_0 < rows@.len() && rows@[r->Some_0 as int].id == id,
{
    let n = rows.len();
    let mut j: usize = 0;
    while j < n
        invariant
            n == rows@.len(),
            j <= n,
            forall|b: int| 0 <= b < j ==> #[trigger] rows@[b].id != id,
        decreases n - j,
    {
        if rows[j].id == id {
            return Some(j);
        }
        j = j + 1;
    }
    None
}

/// For each row, the position of its parent; `None` if some named parent
/// does not exist.
fn parent_positions(rows: &Vec<RealmRow>) -> (r: Option<Vec<Option<usize>>>)
    requires
        ids_unique(rows@),
    ensures
        r is None <==> !parents_exist(rows@),
        r is Some ==> r->Some_0@.len() == rows@.len() && forall|i: int|
            0 <= i < rows@.len() ==> #[trigger] opt_int(r->Some_0@[i]) == parent_index(rows@, i),
{
    let n = rows.len();
    let mut out: Vec<Option<usize>> = Vec::new();
    let mut i: usize = 0;
    while i < n
        invariant
            n == rows@.len(),
            ids_unique(rows@),
            i <= n,
            out@.len() == i,
            forall|a: int|
                0 <= a < i ==> #[trigger] opt_int(out@[a]) == parent_index(rows@, a),
            forall|a: int|
                0 <= a < i && #[trigger] rows@[a].parent is Some ==> has_id(
                    rows@,
                    rows@[a].parent->Some_0,
                ),
        decreases n - i,
    {
        match rows[i].parent {
            None => {
                out.push(None);
            },
            Some(p) => {
                match position_of(rows, p) {
                    None => {
                        assert(rows@[i as int].parent is Some);
                        return None;
                    },
                    Some(j) => {
                        proof {
                            let k = index_of(rows@, p);
                            assert(rows@[k].id == p);
                            assert(k == j as int);
                        }
                        out.push(Some(j));
                    },
                }
            },
        }
        i = i + 1;
    }
    Some(out)
}

pub open spec fn opt_int(o: Option<usize>) -> Option<int> {
    match o {
        None => None,
        Some(x) => Some(x as int),
    }
}

/// Whether every row reaches a parentless row within `rows.len()` steps,
/// given the parent positions of every row.
fn check_acyclic(rows: &Vec<RealmRow>, parents: &Vec<Option<usize>>) -> (r: bool)
    requires
        parents_exist(rows@),
        parents@.len() == rows@.len(),
        forall|i: int|
            0 <= i < rows@.len() ==> #[trigger] opt_int(parents@[i]) == parent_index(rows@, i),
    ensures
        r == acyclic(rows@),
{
    let n = rows.len();
    let mut i: usize = 0;
    while i < n
        invariant
            n == rows@.len(),
            i <= n,
            parents_exist(rows@),
            parents@.len() == rows@.len(),
            forall|a: int|
                0 <= a < rows@.len() ==> #[trigger] opt_int(parents@[a]) == parent_index(rows@, a),
            forall|a: int| 0 <= a < i ==> #[trigger] reaches_root(rows@, a, n as nat),
        decreases n - i,
    {
        let mut cur: usize = i;
        let mut steps: usize = 0;
        while steps < n && parents[cur].is_some()
            invariant
                n == rows@.len(),
                i < n,
                cur < n,
                steps <= n,
                parents_exist(rows@),
                parents@.len() == rows@.len(),
                forall|a: int|
                    0 <= a < rows@.len() ==> #[trigger] opt_int(parents@[a]) == parent_index(
                        rows@,
                        a,
                    ),
                reaches_root(rows@, i as int, n as nat) == reaches_root(
                    rows@,
                    cur as int,
                    (n - steps) as nat,
                ),
            decreases n - steps,
        {
            assert(opt_int(parents@[cur as int]) == parent_index(rows@, cur as int));
            let next = parents[cur].unwrap();
            proof {
                let k = index_of(rows@, rows@[cur as int].parent->Some_0);
                assert(0 <= k < rows@.len() && rows@[k].id == rows@[cur as int].parent->Some_0);
            }
            cur = next;
            steps = steps + 1;
        }
        assert(opt_int(parents@[cur as int]) == parent_index(rows@, cur as int));
        if parents[cur].is_some() {
            assert(!reaches_root(rows@, i as int, n as nat));
            return false;
        }
        assert(rows@[cur as int].parent is None);
        i = i + 1;
    }
    true
}

/// Sibling order: by order index, then by id.
pub open spec fn row_before(rows: Seq<RealmRow>, a: int, b: int) -> bool {
    rows[a].order_index < rows[b].order_index || (rows[a].order_index == rows[b].order_index
        && rows[a].id < rows[b].id)
}

fn row_before_exec(rows: &Vec<RealmRow>, a: usize, b: usize) -> (r: bool)
    requires
        a < rows@.len(),
        b < rows@.len(),
    ensures
        r == row_before(rows@, a as int, b as int),
{
    rows[a].order_index < rows[b].order_index || (rows[a].order_index == rows[b].order_index
        && rows[a].id < rows[b].id)
}

/// All row positions, sorted in sibling order.
fn sorted_positions(rows: &Vec<RealmRow>) -> (r: Vec<usize>)
    requires
        ids_unique(rows@),
    ensures
        r@.len() == rows@.len(),
        forall|k: int| 0 <= k < r@.len() ==> #[trigger] r@[k] < rows@.len(),
        forall|j: usize| j < rows@.len() ==> #[trigger] r@.contains(j),
        forall|a: int, b: int|
            0 <= a < b < r@.len() ==> row_before(rows@, #[trigger] r@[a] as int, #[trigger] r@[b] as int),
{
    let n = rows.len();
    let mut order: Vec<usize> = Vec::new();
    let mut i: usize = 0;
    while i < n
        invariant
            n == rows@.len(),
            ids_unique(rows@),
            i <= n,
            order@.len() == i,
            forall|k: int| 0 <= k < order@.len() ==> #[trigger] order@[k] < i,
            forall|j: usize| j < i ==> #[trigger] order@.contains(j),
            forall|a: int, b: int|
                0 <= a < b < order@.len() ==> row_before(
                    rows@,
                    #[trigger] order@[a] as int,
                    #[trigger] order@[b] as int,
                ),
        decreases n - i,
    {
        let mut pos: usize = 0;
        while pos < order.len() && !row_before_exec(rows, i, order[pos])
            invariant
                n == rows@.len(),
                i < n,
                pos <= order@.len(),
                forall|k: int| 0 <= k < order@.len() ==> #[trigger] order@[k] < i,
                forall|k: int|
                    0 <= k < pos ==> !row_before(rows@, i as int, #[trigger] order@[k] as int),
            decreases order@.len() - pos,
        {
            pos = pos + 1;
        }
        let ghost old_order = order@;
        order.insert(pos, i);
        proof {
            assert forall|k: int| 0 <= k < pos implies row_before(
                rows@,
                #[trigger] old_order[k] as int,
                i as int,
            ) by {
                assert(old_order[k] < i);
                assert(rows@[old_order[k] as int].id != rows@[i as int].id);
            }
            assert forall|a: int, b: int| 0 <= a < b < order@.len() implies row_before(
                rows@,
                #[trigger] order@[a] as int,
                #[trigger] order@[b] as int,
            ) by {
                if b < pos {
                    assert(order@[a] == old_order[a] && order@[b] == old_order[b]);
                } else if b == pos {
                    assert(order@[a] == old_order[a]);
                } else if a < pos {
                    assert(order@[a] == old_order[a] && order@[b] == old_order[b - 1]);
                    assert(row_before(rows@, old_order[a] as int, i as int));
                    assert(row_before(rows@, i as int, old_order[pos as int] as int));
                    if pos < b - 1 {
                        assert(row_before(rows@, old_order[pos as int] as int, old_order[b - 1] as int));
                    }
                } else if a == pos {
                    assert(order@[b] == old_order[b - 1]);
                    assert(row_before(rows@, i as int, old_order[pos as int] as int));
                    if pos < b - 1 {
                        assert(row_before(rows@, old_order[pos as int] as int, old_order[b - 1] as int));
                    }
                } else {
                    assert(order@[a] == old_order[a - 1] && order@[b] == old_order[b - 1]);
                }
            }
            assert forall|j: usize| j <= i implies #[trigger] order@.contains(j) by {
                if j == i {
                    assert(order@[pos as int] == i);
                } else {
                    assert(old_order.contains(j));
                    let k = choose|k: int| 0 <= k < old_order.len() && old_order[k] == j;
                    if k < pos {
                        assert(order@[k] == j);
                    } else {
                        assert(order@[k + 1] == j);
                    }
                }
            }
            assert forall|k: int| 0 <= k < order@.len() implies #[trigger] order@[k] < i + 1 by {
                if k < pos {
                    assert(order@[k] == old_order[k]);
                } else if k > pos {
                    assert(order@[k] == old_order[k - 1]);
                }
            }
        }
        i = i + 1;
    }
    order
}

/// The children of row `p`, in sibling order, picked out of `order`.
fn children_of(
    rows: &Vec<RealmRow>,
    parents: &Vec<Option<usize>>,
    order: &Vec<usize>,
    p: usize,
) -> (r: Vec<usize>)
    requires
        parents@.len() == rows@.len(),
        forall|i: int|
            0 <= i < rows@.len() ==> #[trigger] opt_int(parents@[i]) == parent_index(rows@, i),
        order@.len() == rows@.len(),
        forall|k: int| 0 <= k < order@.len() ==> #[trigger] order@[k] < rows@.len(),
        forall|j: usize| j < rows@.len() ==> #[trigger] order@.contains(j),
        forall|a: int, b: int|
            0 <= a < b < order@.len() ==> row_before(rows@, #[trigger] order@[a] as int, #[trigger] order@[b] as int),
    ensures
        forall|k: int|
            0 <= k < r@.len() ==> #[trigger] r@[k] < rows@.len() && parent_index(rows@, r@[k] as int)
                == Some(p as int),
        forall|j: int|
            0 <= j < rows@.len() && parent_index(rows@, j) == Some(p as int) ==> r@.contains(
                j as usize,
            ),
        forall|a: int, b: int|
            0 <= a < b < r@.len() ==> row_before(rows@, #[trigger] r@[a] as int, #[trigger] r@[b] as int),
{
    let n = order.len();
    let mut out: Vec<usize> = Vec::new();
    let mut k: usize = 0;
    let ghost mut from: Seq<int> = seq![];
    while k < n
        invariant
            n == order@.len(),
            n == rows@.len(),
            parents@.len() == rows@.len(),
            forall|i: int|
                0 <= i < rows@.len() ==> #[trigger] opt_int(parents@[i]) == parent_index(rows@, i),
            forall|m: int| 0 <= m < order@.len() ==> #[trigger] order@[m] < rows@.len(),
            forall|a: int, b: int|
                0 <= a < b < order@.len() ==> row_before(
                    rows@,
                    #[trigger] order@[a] as int,
                    #[trigger] order@[b] as int,
                ),
            k <= n,
            from.len() == out@.len(),
            forall|m: int|
                0 <= m < out@.len() ==> 0 <= #[trigger] from[m] < k && out@[m] == order@[from[m]],
            forall|a: int, b: int| 0 <= a < b < out@.len() ==> #[trigger] from[a] < #[trigger] from[b],
            forall|m: int|
                0 <= m < out@.len() ==> #[trigger] out@[m] < rows@.len() && parent_index(
                    rows@,
                    out@[m] as int,
                ) == Some(p as int),
            forall|m: int|
                0 <= m < k && parent_index(rows@, #[trigger] order@[m] as int) == Some(p as int)
                    ==> out@.contains(order@[m]),
        decreases n - k,
    {
        let j = order[k];
        assert(opt_int(parents@[j as int]) == parent_index(rows@, j as int));
        if parents[j] == Some(p) {
            let ghost old_out = out@;
            out.push(j);
            proof {
                assert forall|m: int|
                    0 <= m < k && parent_index(rows@, #[trigger] order@[m] as int) == Some(
                        p as int,
                    ) implies out@.contains(order@[m]) by {
                    let w = choose|w: int| 0 <= w < old_out.len() && old_out[w] == order@[m];
                    assert(out@[w] == order@[m]);
                }
            }
            proof {
                from = from.push(k as int);
            }
            assert(out@[out@.len() - 1] == j);
        }
        k = k + 1;
    }
    proof {
        assert forall|a: int, b: int| 0 <= a < b < out@.len() implies row_before(
            rows@,
            #[trigger] out@[a] as int,
            #[trigger] out@[b] as int,
        ) by {
            assert(from[a] < from[b]);
        }
        assert forall|j: int|
            0 <= j < rows@.len() && parent_index(rows@, j) == Some(p as int) implies out@.contains(
            j as usize,
        ) by {
            assert(order@.contains(j as usize));
            let m = choose|m: int| 0 <= m < order@.len() && order@[m] == j as usize;
            assert(parent_index(rows@, order@[m] as int) == Some(p as int));
        }
    }
    out
}

/// One realm of a built tree.
pub struct Node {
    id: u64,
    name: String,
    path_segment: String,
    order_index: i32,
    parent: Option<usize>,
    children: Vec<usize>,
}

/// An immutable snapshot of all realms, linked into a tree.
pub struct Tree {
    nodes: Vec<Node>,
    root: usize,
}

/// What a node of the tree holds; parents and children are positions in the
/// tree.
pub struct NodeView {
    pub id: u64,
    pub name: Seq<char>,
    pub path_segment: Seq<char>,
    pub order_index: i32,
    pub parent: Option<usize>,
    pub children: Seq<usize>,
}

pub struct TreeView {
    pub nodes: Seq<NodeView>,
    pub root: usize,
}

impl View for Node {
    type V = NodeView;

    closed spec fn view(&self) -> NodeView {
        NodeView {
            id: self.id,
            name: self.name@,
            path_segment: self.path_segment@,
            order_index: self.order_index,
            parent: self.parent,
            children: self.children@,
        }
    }
}

impl View for Tree {
    type V = TreeView;

    closed spec fn view(&self) -> TreeView {
        TreeView { nodes: self.nodes@.map_values(|n: Node| n@), root: self.root }
    }
}

/// Sibling order on nodes: by order index, then by id.
pub open spec fn node_before(a: NodeView, b: NodeView) -> bool {
    a.order_index < b.order_index || (a.order_index == b.order_index && a.id < b.id)
}

/// The children of node `p` are exactly the nodes whose parent is `p`, each
/// once, in sibling order.
pub open spec fn children_ok(t: TreeView, p: int) -> bool {
    let ch = t.nodes[p].children;
    &&& forall|k: int|
        0 <= k < ch.len() ==> #[trigger] ch[k] < t.nodes.len() && t.nodes[ch[k] as int].parent
            == Some(p as usize)
    &&& forall|c: usize|
        c < t.nodes.len() && t.nodes[c as int].parent == Some(p as usize) ==> #[trigger] ch.contains(c)
    &&& forall|a: int, b: int|
        0 <= a < b < ch.len() ==> node_before(t.nodes[#[trigger] ch[a] as int], t.nodes[#[trigger] ch[b] as int])
    &&& forall|a: int, b: int|
        0 <= a < b < ch.len() ==> t.nodes[#[trigger] ch[a] as int].path_segment
            != t.nodes[#[trigger] ch[b] as int].path_segment
}

/// Following parents from node `i`, the root is reached within `fuel` steps.
pub open spec fn tree_reaches_root(t: TreeView, i: int, fuel: nat) -> bool
    decreases fuel,
{
    match t.nodes[i].parent {
        None => i == t.root,
        Some(p) => fuel > 0 && tree_reaches_root(t, p as int, (fuel - 1) as nat),
    }
}

/// The node `k` parent steps above node `i`; the root is its own parent here.
pub open spec fn ancestor(t: TreeView, i: int, k: nat) -> int
    decreases k,
{
    if k == 0 {
        i
    } else {
        match t.nodes[i].parent {
            None => i,
            Some(p) => ancestor(t, p as int, (k - 1) as nat),
        }
    }
}

impl TreeView {
    pub open spec fn wf(self) -> bool {
        &&& self.root < self.nodes.len()
        &&& self.nodes[self.root as int].parent is None
        &&& forall|i: int|
            0 <= i < self.nodes.len() && i != self.root ==> (#[trigger] self.nodes[i]).parent is Some
                && self.nodes[i].parent->Some_0 < self.nodes.len()
        &&& forall|i: int, j: int|
            0 <= i < self.nodes.len() && 0 <= j < self.nodes.len() && i != j ==> #[trigger] self.nodes[i].id
                != #[trigger] self.nodes[j].id
        &&& forall|i: int| 0 <= i < self.nodes.len() ==> #[trigger] tree_reaches_root(self, i, self.nodes.len())
        &&& forall|p: int| 0 <= p < self.nodes.len() ==> #[trigger] children_ok(self, p)
    }

    /// The tree holds the rows, in their order, each linked to its parent.
    pub open spec fn built_from(self, rows: Seq<RealmRow>) -> bool {
        &&& self.nodes.len() == rows.len()
        &&& forall|i: int|
            0 <= i < rows.len() ==> {
                &&& (#[trigger] self.nodes[i]).id == rows[i].id
                &&& self.nodes[i].name == rows[i].name@
                &&& self.nodes[i].path_segment == rows[i].path_segment@
                &&& self.nodes[i].order_index == rows[i].order_index
                &&& opt_int(self.nodes[i].parent) == parent_index(rows, i)
            }
    }
}

proof fn lemma_count_roots_pos(rows: Seq<RealmRow>, i: int)
    requires
        0 <= i < rows.len(),
        rows[i].parent is None,
    ensures
        count_roots(rows) >= 1,
    decreases rows.len(),
{
    if i < rows.len() - 1 {
        assert(rows.drop_last()[i] == rows[i]);
        lemma_count_roots_pos(rows.drop_last(), i);
    }
}

proof fn lemma_single_root(rows: Seq<RealmRow>, r: int, i: int)
    requires
        count_roots(rows) == 1,
        0 <= r < rows.len(),
        0 <= i < rows.len(),
        rows[r].parent is None,
        rows[i].parent is None,
    ensures
        i == r,
    decreases rows.len(),
{
    let last = rows.len() - 1;
    if i != r {
        if i == last {
            assert(rows.drop_last()[r] == rows[r]);
            lemma_count_roots_pos(rows.drop_last(), r);
        } else if r == last {
            assert(rows.drop_last()[i] == rows[i]);
            lemma_count_roots_pos(rows.drop_last(), i);
        } else {
            assert(rows.drop_last()[i] == rows[i]);
            assert(rows.drop_last()[r] == rows[r]);
            lemma_count_roots_pos(rows.drop_last(), i);
            if rows.last().parent is None {
            } else {
                lemma_single_root(rows.drop_last(), r, i);
            }
        }
    }
}

proof fn lemma_reaches_matches(t: TreeView, rows: Seq<RealmRow>, r: int, i: int, fuel: nat)
    requires
        t.built_from(rows),
        t.root == r,
        0 <= i < rows.len(),
        0 <= r < rows.len(),
        parents_exist(rows),
        forall|j: int| 0 <= j < rows.len() && #[trigger] rows[j].parent is None ==> j == r,
    ensures
        tree_reaches_root(t, i, fuel) == reaches_root(rows, i, fuel),
    decreases fuel,
{
    assert(opt_int(t.nodes[i].parent) == parent_index(rows, i));
    if rows[i].parent is Some {
        let k = index_of(rows, rows[i].parent->Some_0);
        assert(0 <= k < rows.len() && rows[k].id == rows[i].parent->Some_0);
        if fuel > 0 {
            lemma_reaches_matches(t, rows, r, k, (fuel - 1) as nat);
        }
    }
}

impl Tree {
    /// Builds the tree of the given rows, or names the first structural
    /// violation among them.
    pub fn build(rows: &Vec<RealmRow>) -> (r: Result<Tree, TreeError>)
        ensures
            r is Err <==> build_error(rows@) is Some,
            r is Err ==> build_error(rows@) == Some(r->Err_0),
            r is Ok ==> r->Ok_0@.wf() && r->Ok_0@.built_from(rows@),
    {
        if !check_ids_unique(rows) {
            return Err(TreeError::DuplicateId);
        }
        let (count, root) = find_root(rows);
        if count == 0 {
            return Err(TreeError::NoRoot);
        }
        if count > 1 {
            return Err(TreeError::MultipleRoots);
        }
        let parents = match parent_positions(rows) {
            None => {
                return Err(TreeError::MissingParent);
            },
            Some(ps) => ps,
        };
        if !check_acyclic(rows, &parents) {
            return Err(TreeError::Cycle);
        }
        if !check_segments_unique(rows) {
            return Err(TreeError::DuplicatePathSegment);
        }
        let order = sorted_positions(rows);
        let n = rows.len();
        let mut nodes: Vec<Node> = Vec::new();
        let mut i: usize = 0;
        while i < n
            invariant
                n == rows@.len(),
                i <= n,
                parents@.len() == rows@.len(),
                forall|a: int|
                    0 <= a < rows@.len() ==> #[trigger] opt_int(parents@[a]) == parent_index(rows@, a),
                order@.len() == rows@.len(),
                forall|k: int| 0 <= k < order@.len() ==> #[trigger] order@[k] < rows@.len(),
                forall|j: usize| j < rows@.len() ==> #[trigger] order@.contains(j),
                forall|a: int, b: int|
                    0 <= a < b < order@.len() ==> row_before(
                        rows@,
                        #[trigger] order@[a] as int,
                        #[trigger] order@[b] as int,
                    ),
                nodes@.len() == i,
                forall|a: int|
                    0 <= a < i ==> {
                        let nv = (#[trigger] nodes@[a])@;
                        &&& nv.id == rows@[a].id
                        &&& nv.name == rows@[a].name@
                        &&& nv.path_segment == rows@[a].path_segment@
                        &&& nv.order_index == rows@[a].order_index
                        &&& nv.parent == parents@[a]
                        &&& forall|k: int|
                            0 <= k < nv.children.len() ==> #[trigger] nv.children[k] < rows@.len()
                                && parent_index(rows@, nv.children[k] as int) == Some(a)
                        &&& forall|c: usize|
                            c < rows@.len() && parent_index(rows@, c as int) == Some(a)
                                ==> #[trigger] nv.children.contains(c)
                        &&& forall|x: int, y: int|
                            0 <= x < y < nv.children.len() ==> row_before(
                                rows@,
                                #[trigger] nv.children[x] as int,
                                #[trigger] nv.children[y] as int,
                            )
                    },
            decreases n - i,
        {
            let children = children_of(rows, &parents, &order, i);
            let node = Node {
                id: rows[i].id,
                name: rows[i].name.clone(),
                path_segment: rows[i].path_segment.clone(),
                order_index: rows[i].order_index,
                parent: parents[i],
                children,
            };
            nodes.push(node);
            proof {
                let nv = nodes@[i as int]@;
                assert forall|c: usize|
                    c < rows@.len() && parent_index(rows@, c as int) == Some(i as int)
                        implies #[trigger] nv.children.contains(c) by {
                    assert(children@.contains(c));
                }
            }
            i = i + 1;
        }
        let tree = Tree { nodes, root };
        proof {
            let t = tree@;
            let rs = rows@;
            assert forall|j: int| 0 <= j < rs.len() && #[trigger] rs[j].parent is None implies j
                == root as int by {
                lemma_single_root(rs, root as int, j);
            }
            assert(t.nodes.len() == rs.len());
            assert forall|a: int| 0 <= a < rs.len() implies opt_int(#[trigger] t.nodes[a].parent)
                == parent_index(rs, a) by {
                assert(t.nodes[a] == nodes@[a]@);
            }
            assert(t.built_from(rs));
            assert forall|a: int| 0 <= a < rs.len() implies #[trigger] tree_reaches_root(t, a, t.nodes.len()) by {
                lemma_reaches_matches(t, rs, root as int, a, rs.len());
                assert(reaches_root(rs, a, rs.len()));
            }
            assert forall|a: int| 0 <= a < rs.len() && a != root implies (#[trigger] t.nodes[a]).parent is Some
                && t.nodes[a].parent->Some_0 < t.nodes.len() by {
                let k = index_of(rs, rs[a].parent->Some_0);
                assert(0 <= k < rs.len() && rs[k].id == rs[a].parent->Some_0);
            }
            assert forall|p: int| 0 <= p < t.nodes.len() implies #[trigger] children_ok(t, p) by {
                let ch = t.nodes[p].children;
                assert(ch == nodes@[p]@.children);
                assert forall|k: int| 0 <= k < ch.len() implies #[trigger] ch[k] < t.nodes.len()
                    && t.nodes[ch[k] as int].parent == Some(p as usize) by {
                    assert(opt_int(t.nodes[ch[k] as int].parent) == parent_index(rs, ch[k] as int));
                }
                assert forall|c: usize|
                    c < t.nodes.len() && t.nodes[c as int].parent == Some(p as usize) implies #[trigger] ch.contains(c) by {
                    assert(opt_int(t.nodes[c as int].parent) == parent_index(rs, c as int));
                }
                assert forall|x: int, y: int|
                    0 <= x < y < ch.len() implies node_before(t.nodes[#[trigger] ch[x] as int], t.nodes[#[trigger] ch[y] as int]) by {
                    assert(row_before(rs, ch[x] as int, ch[y] as int));
                }
                assert forall|x: int, y: int|
                    0 <= x < y < ch.len() implies t.nodes[#[trigger] ch[x] as int].path_segment
                        != t.nodes[#[trigger] ch[y] as int].path_segment by {
                    let cx = ch[x] as int;
                    let cy = ch[y] as int;
                    assert(row_before(rs, cx, cy));
                    assert(cx != cy);
                    assert(parent_index(rs, cx) == Some(p) && parent_index(rs, cy) == Some(p));
                    let kx = index_of(rs, rs[cx].parent->Some_0);
                    let ky = index_of(rs, rs[cy].parent->Some_0);
                    assert(0 <= kx < rs.len() && rs[kx].id == rs[cx].parent->Some_0);
                    assert(0 <= ky < rs.len() && rs[ky].id == rs[cy].parent->Some_0);
                    assert(rs[cx].parent == rs[cy].parent);
                }
            }
        }
        Ok(tree)
    }
}

/// The one step up from node `i`: its parent, or the node itself at the root.
pub open spec fn step_up(t: TreeView, i: int) -> int {
    match t.nodes[i].parent {
        None => i,
        Some(p) => p as int,
    }
}

proof fn lemma_ancestor_step(t: TreeView, i: int, k: nat)
    ensures
        ancestor(t, i, k + 1) == step_up(t, ancestor(t, i, k)),
    decreases k,
{
    match t.nodes[i].parent {
        None => {
            lemma_ancestor_stays(t, i, k);
            lemma_ancestor_stays(t, i, k + 1);
        },
        Some(p) => {
            if k == 0 {
                assert(ancestor(t, p as int, 0) == p as int);
            } else {
                lemma_ancestor_step(t, p as int, (k - 1) as nat);
            }
        },
    }
}

proof fn lemma_ancestor_stays(t: TreeView, i: int, k: nat)
    requires
        t.nodes[i].parent is None,
    ensures
        ancestor(t, i, k) == i,
{
}

proof fn lemma_reaches_gives_ancestor(t: TreeView, i: int, fuel: nat) -> (k: nat)
    requires
        tree_reaches_root(t, i, fuel),
    ensures
        k <= fuel,
        ancestor(t, i, k) == t.root,
    decreases fuel,
{
    match t.nodes[i].parent {
        None => 0,
        Some(p) => {
            let k = lemma_reaches_gives_ancestor(t, p as int, (fuel - 1) as nat);
            k + 1
        },
    }
}

/// In a well-formed tree, walking up from any node reaches the root within
/// as many steps as the tree has nodes.
pub proof fn lemma_ancestor_walk_reaches_root(t: TreeView, i: int)
    requires
        t.wf(),
        0 <= i < t.nodes.len(),
    ensures
        exists|k: nat| k <= t.nodes.len() && #[trigger] ancestor(t, i, k) == t.root,
{
    let k = lemma_reaches_gives_ancestor(t, i, t.nodes.len());
    assert(ancestor(t, i, k) == t.root);
}

/// The first of the nodes `ch` whose path segment is `seg`.
pub open spec fn first_with_segment(t: TreeView, ch: Seq<usize>, seg: Seq<char>) -> Option<usize>
    decreases ch.len(),
{
    if ch.len() == 0 {
        None
    } else if t.nodes[ch[0] as int].path_segment == seg {
        Some(ch[0])
    } else {
        first_with_segment(t, ch.drop_first(), seg)
    }
}

/// The node reached from the root by following `path`, one path segment
/// per level.
pub open spec fn lookup_path(t: TreeView, path: Seq<Seq<char>>) -> Option<usize>
    decreases path.len(),
{
    if path.len() == 0 {
        Some(t.root)
    } else {
        match lookup_path(t, path.drop_last()) {
            None => None,
            Some(n) => first_with_segment(t, t.nodes[n as int].children, path.last()),
        }
    }
}

proof fn lemma_lookup_prefix_none(t: TreeView, path: Seq<Seq<char>>, m: int)
    requires
        0 <= m <= path.len(),
        lookup_path(t, path.take(m)) is None,
    ensures
        lookup_path(t, path) is None,
    decreases path.len() - m,
{
    if m == path.len() {
        assert(path.take(m) =~= path);
    } else {
        assert(path.take(m + 1).drop_last() =~= path.take(m));
        lemma_lookup_prefix_none(t, path, m + 1);
    }
}

pub open spec fn find_id(t: TreeView, id: u64) -> Option<usize> {
    if exists|i: int| 0 <= i < t.nodes.len() && #[trigger] t.nodes[i].id == id {
        Some((choose|i: int| 0 <= i < t.nodes.len() && #[trigger] t.nodes[i].id == id) as usize)
    } else {
        None
    }
}

impl Tree {
    /// The number of realms in the tree.
    pub fn len(&self) -> (r: usize)
        ensures
            r == self@.nodes.len(),
    {
        self.nodes.len()
    }

    /// The position of the root realm.
    pub fn root(&self) -> (r: usize)
        ensures
            r == self@.root,
    {
        self.root
    }

    /// The stored id of node `i`.
    pub fn id(&self, i: usize) -> (r: u64)
        requires
            i < self@.nodes.len(),
        ensures
            r == self@.nodes[i as int].id,
    {
        self.nodes[i].id
    }

    /// The display name of node `i`.
    pub fn name(&self, i: usize) -> (r: &str)
        requires
            i < self@.nodes.len(),
        ensures
            r@ == self@.nodes[i as int].name,
    {
        self.nodes[i].name.as_str()
    }

    /// The path segment of node `i`.
    pub fn path_segment(&self, i: usize) -> (r: &str)
        requires
            i < self@.nodes.len(),
        ensures
            r@ == self@.nodes[i as int].path_segment,
    {
        self.nodes[i].path_segment.as_str()
    }

    /// The order index of node `i` among its siblings.
    pub fn order_index(&self, i: usize) -> (r: i32)
        requires
            i < self@.nodes.len(),
        ensures
            r == self@.nodes[i as int].order_index,
    {
        self.nodes[i].order_index
    }

    /// The parent of node `i`; `None` for the root.
    pub fn parent(&self, i: usize) -> (r: Option<usize>)
        requires
            i < self@.nodes.len(),
        ensures
            r == self@.nodes[i as int].parent,
    {
        self.nodes[i].parent
    }

    /// The children of node `i`, in sibling order.
    pub fn children(&self, i: usize) -> (r: &[usize])
        requires
            i < self@.nodes.len(),
        ensures
            r@ == self@.nodes[i as int].children,
    {
        self.nodes[i].children.as_slice()
    }

    /// The position of the realm with the given stored id.
    pub fn find_by_id(&self, id: u64) -> (r: Option<usize>)
        requires
            self@.wf(),
        ensures
            r == find_id(self@, id),
    {
        let n = self.nodes.len();
        let mut i: usize = 0;
        while i < n
            invariant
                n == self@.nodes.len(),
                self@.wf(),
                i <= n,
                forall|a: int| 0 <= a < i ==> #[trigger] self@.nodes[a].id != id,
            decreases n - i,
        {
            assert(self@.nodes[i as int] == self.nodes@[i as int]@);
            if self.nodes[i].id == id {
                proof {
                    let t = self@;
                    assert(t.nodes[i as int].id == id);
                    let c = choose|c: int| 0 <= c < t.nodes.len() && #[trigger] t.nodes[c].id == id;
                    assert(c == i);
                }
                return Some(i);
            }
            i = i + 1;
        }
        None
    }

    /// The chain of nodes from node `i` up to the root, both included.
    pub fn ancestors(&self, i: usize) -> (r: Vec<usize>)
        requires
            self@.wf(),
            i < self@.nodes.len(),
        ensures
            1 <= r@.len() <= self@.nodes.len() + 1,
            r@[0] == i,
            r@.last() == self@.root,
            forall|k: int| 0 <= k < r@.len() ==> #[trigger] r@[k] as int == ancestor(self@, i as int, k as nat),
    {
        let n = self.nodes.len();
        let mut out: Vec<usize> = Vec::new();
        out.push(i);
        let mut cur: usize = i;
        let mut steps: usize = 0;
        assert(self@.nodes[cur as int] == self.nodes@[cur as int]@);
        while self.nodes[cur].parent.is_some()
            invariant
                n == self@.nodes.len(),
                self@.wf(),
                cur < n,
                steps <= n,
                tree_reaches_root(self@, cur as int, (n - steps) as nat),
                out@.len() == steps + 1,
                out@.last() == cur,
                out@[0] == i,
                forall|k: int| 0 <= k < out@.len() ==> #[trigger] out@[k] as int == ancestor(self@, i as int, k as nat),
            decreases n - steps,
        {
            assert(self@.nodes[cur as int] == self.nodes@[cur as int]@);
            let next = self.nodes[cur].parent.unwrap();
            proof {
                lemma_ancestor_step(self@, i as int, steps as nat);
            }
            out.push(next);
            cur = next;
            steps = steps + 1;
        }
        assert(self@.nodes[cur as int] == self.nodes@[cur as int]@);
        out
    }

    /// The realm reached from the root by following `path`, one path segment
    /// per level.
    pub fn find_by_path(&self, path: &Vec<String>) -> (r: Option<usize>)
        requires
            self@.wf(),
        ensures
            r == lookup_path(self@, path@.map_values(|s: String| s@)),
    {
        let ghost segs = path@.map_values(|s: String| s@);
        let mut cur: usize = self.root;
        let mut i: usize = 0;
        assert(segs.take(0) =~= Seq::<Seq<char>>::empty());
        while i < path.len()
            invariant
                self@.wf(),
                segs == path@.map_values(|s: String| s@),
                i <= path@.len(),
                cur < self@.nodes.len(),
                lookup_path(self@, segs.take(i as int)) == Some(cur),
            decreases path@.len() - i,
        {
            let ghost t = self@;
            assert(t.nodes[cur as int] == self.nodes@[cur as int]@);
            let children = &self.nodes[cur].children;
            let ghost ch = children@;
            assert(segs.take(i + 1).drop_last() =~= segs.take(i as int));
            assert(segs.take(i + 1).last() == path@[i as int]@);
            let mut k: usize = 0;
            let mut found: Option<usize> = None;
            assert(ch.skip(0) =~= ch);
            while found.is_none() && k < children.len()
                invariant
                    t == self@,
                    t.wf(),
                    cur < t.nodes.len(),
                    ch == children@,
                    ch == t.nodes[cur as int].children,
                    i < path@.len(),
                    k <= ch.len(),
                    found is None ==> first_with_segment(t, ch, path@[i as int]@)
                        == first_with_segment(t, ch.skip(k as int), path@[i as int]@),
                    found is Some ==> first_with_segment(t, ch, path@[i as int]@) == found
                        && found->Some_0 < t.nodes.len(),
                decreases ch.len() - k,
            {
                let c = children[k];
                assert(children_ok(t, cur as int));
                assert(c < t.nodes.len());
                assert(t.nodes[c as int] == self.nodes@[c as int]@);
                assert(ch.skip(k as int)[0] == c);
                assert(ch.skip(k as int).drop_first() =~= ch.skip(k + 1));
                if self.nodes[c].path_segment == path[i] {
                    found = Some(c);
                }
                k = k + 1;
            }
            match found {
                None => {
                    assert(ch.skip(k as int).len() == 0);
                    assert(lookup_path(t, segs.take(i + 1)) is None);
                    proof {
                        lemma_lookup_prefix_none(t, segs, i + 1);
                    }
                    return None;
                },
                Some(c) => {
                    cur = c;
                },
            }
            i = i + 1;
        }
        assert(segs.take(path@.len() as int) =~= segs);
        Some(cur)
    }
}

} // verus!
