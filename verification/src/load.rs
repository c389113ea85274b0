//! Building an engine from stored state: the state is examined, and taken
//! only where it satisfies the invariant of the tree.

use vstd::prelude::*;
use crate::engine::FolderEngine;
use crate::ids::{index_of_id, lemma_distinct_below};
use crate::model::{ancestors, FolderError, Kind, NodeView, Status, TreeModel};
use crate::node::{table, Node, Snapshot};

verus! {

/// Whether exactly `k` steps up from `x` along parent links end at a node
/// without parent.
pub open spec fn reaches_root(nodes: Seq<NodeView>, x: int, k: nat) -> bool
    decreases k,
{
    if 0 <= x < nodes.len() {
        match nodes[x].parent_id {
            None => k == 0,
            Some(p) => k > 0 && reaches_root(nodes, p as int, (k - 1) as nat),
        }
    } else {
        false
    }
}

/// Whether `x` reaches a root within as many steps as the table has
/// entries.
pub open spec fn rooted(nodes: Seq<NodeView>, x: int) -> bool {
    exists|k: nat| k <= nodes.len() && reaches_root(nodes, x, k)
}

/// The number of steps from `x` to its root.
pub open spec fn steps(nodes: Seq<NodeView>, x: int) -> nat {
    choose|k: nat| k <= nodes.len() && reaches_root(nodes, x, k)
}

/// The ledger entry that a record asks for: the trash wants the trashed
/// nodes, the favorites want the tagged ones.
pub open spec fn listed(n: NodeView, trash: bool) -> bool {
    if trash {
        n.status == Status::Trashed
    } else {
        n.is_favorite
    }
}

/// `list` holds exactly the nodes that ask for an entry, each once.
pub open spec fn ledger_ok(nodes: Seq<NodeView>, list: Seq<usize>, trash: bool) -> bool {
    &&& list.no_duplicates()
    &&& forall|k: int|
        0 <= k < list.len() ==> (#[trigger] list[k] as int) < nodes.len() && listed(
            nodes[list[k] as int],
            trash,
        )
    &&& forall|i: int|
        0 <= i < nodes.len() && listed(#[trigger] nodes[i], trash) ==> list.contains(i as usize)
}

impl TreeModel {
    /// What the invariant asks of the node `i` alone: its record is
    /// consistent, its children are live nodes that name it as parent, and
    /// where it is live it stands among its parent's children.
    pub open spec fn node_shape_ok(self, i: int) -> bool {
        let n = self.nodes[i];
        &&& n.ordered_children.no_duplicates()
        &&& match n.parent_id {
            Some(p) => {
                &&& (p as int) < self.nodes.len()
                &&& n.kind == Kind::View
                &&& n.status != Status::Purged
                &&& self.nodes[p as int].status != Status::Purged
                &&& (n.status == Status::Live ==> self.nodes[p as int].ordered_children.contains(
                    i as usize,
                ))
            },
            None => true,
        }
        &&& (n.status == Status::Purged ==> n.ordered_children.len() == 0 && !n.is_favorite
            && n.kind == Kind::View)
        &&& (n.kind == Kind::Workspace ==> n.status == Status::Live)
        &&& forall|k: int|
            0 <= k < n.ordered_children.len() ==> self.child_link(
                i as usize,
                #[trigger] n.ordered_children[k],
            )
    }

    /// Stored state that can be taken: identifier 0 is unassigned, every
    /// node is consistent and reaches a root, and the ledgers hold exactly
    /// the nodes they should.
    pub open spec fn loadable(self) -> bool {
        &&& 0 < self.nodes.len() <= usize::MAX
        &&& self.nodes[0].status == Status::Purged
        &&& forall|i: int| 0 <= i < self.nodes.len() ==> #[trigger] self.node_shape_ok(i)
        &&& forall|i: int| 0 <= i < self.nodes.len() ==> #[trigger] rooted(self.nodes, i)
        &&& ledger_ok(self.nodes, self.trash, true)
        &&& ledger_ok(self.nodes, self.favorites, false)
    }

    /// The depth of every node of loadable state: its distance from its
    /// root.
    pub open spec fn root_distances(self) -> Seq<nat> {
        Seq::new(self.nodes.len(), |i: int| steps(self.nodes, i))
    }
}

/// A node reaches its root in one number of steps only.
pub proof fn lemma_reach_unique(nodes: Seq<NodeView>, x: int, a: nat, b: nat)
    requires
        reaches_root(nodes, x, a),
        reaches_root(nodes, x, b),
    ensures
        a == b,
    decreases a,
{
    if a > 0 {
        let p = nodes[x].parent_id.unwrap();
        lemma_reach_unique(nodes, p as int, (a - 1) as nat, (b - 1) as nat);
    }
}

/// Loadable state is well-formed, with every node as deep as it is far
/// from its root.
pub proof fn lemma_loadable_wf(t: TreeModel)
    requires
        t.loadable(),
    ensures
        t.wf(t.root_distances()),
{
    let d = t.root_distances();
    assert forall|i: int| 0 <= i < t.nodes.len() implies #[trigger] t.node_ok(d, i) by {
        assert(t.node_shape_ok(i));
        assert(rooted(t.nodes, i));
        if let Some(p) = t.nodes[i].parent_id {
            assert(rooted(t.nodes, p as int));
            lemma_reach_unique(
                t.nodes,
                p as int,
                steps(t.nodes, p as int),
                (steps(t.nodes, i) - 1) as nat,
            );
        }
    }
    assert forall|p: usize, c: usize| (p as int) < t.nodes.len() implies (
    #[trigger] t.nodes[p as int].ordered_children.contains(c) <==> t.child_link(p, c)) by {
        assert(t.node_shape_ok(p as int));
        if t.nodes[p as int].ordered_children.contains(c) {
            let k = choose|k: int|
                0 <= k < t.nodes[p as int].ordered_children.len()
                    && t.nodes[p as int].ordered_children[k] == c;
            assert(t.child_link(p, t.nodes[p as int].ordered_children[k]));
        }
        if t.child_link(p, c) {
            assert(t.node_shape_ok(c as int));
        }
    }
    assert forall|id: usize| #[trigger] t.trash.contains(id) <==> t.is_trashed(id) by {
        if t.trash.contains(id) {
            let k = choose|k: int| 0 <= k < t.trash.len() && t.trash[k] == id;
            assert((t.trash[k] as int) < t.nodes.len());
        }
        if t.is_trashed(id) {
            assert(listed(t.nodes[id as int], true));
        }
    }
    assert forall|id: usize| #[trigger]
        t.favorites.contains(id) <==> ((id as int) < t.nodes.len()
            && t.nodes[id as int].is_favorite) by {
        if t.favorites.contains(id) {
            let k = choose|k: int| 0 <= k < t.favorites.len() && t.favorites[k] == id;
            assert((t.favorites[k] as int) < t.nodes.len());
        }
        if (id as int) < t.nodes.len() && t.nodes[id as int].is_favorite {
            assert(listed(t.nodes[id as int], false));
        }
    }
}

/// In a well-formed tree the ancestors of a node are distinct nodes higher
/// than it, and the node reaches its root in as many steps as it has
/// ancestors.
pub proof fn lemma_chain_reaches(t: TreeModel, depth: Seq<nat>, x: usize)
    requires
        t.wf(depth),
        (x as int) < t.nodes.len(),
    ensures
        reaches_root(t.nodes, x as int, ancestors(t.nodes, depth, x as int).len()),
        ancestors(t.nodes, depth, x as int).no_duplicates(),
        forall|k: int|
            0 <= k < ancestors(t.nodes, depth, x as int).len() ==> {
                let a = #[trigger] ancestors(t.nodes, depth, x as int)[k];
                (a as int) < t.nodes.len() && depth[a as int] < depth[x as int]
            },
    decreases depth[x as int],
{
    assert(t.node_ok(depth, x as int));
    if let Some(p) = t.nodes[x as int].parent_id {
        lemma_chain_reaches(t, depth, p);
        let up = ancestors(t.nodes, depth, p as int);
        let all = ancestors(t.nodes, depth, x as int);
        assert(all == seq![p] + up);
        assert forall|k: int| 0 <= k < all.len() implies {
            let a = #[trigger] all[k];
            (a as int) < t.nodes.len() && depth[a as int] < depth[x as int]
        } by {
            if k > 0 {
                assert(all[k] == up[k - 1]);
            }
        }
        assert forall|i: int, j: int| 0 <= i < all.len() && 0 <= j < all.len() && i != j implies all[i]
            != all[j] by {
            if i > 0 {
                assert(all[i] == up[i - 1]);
            }
            if j > 0 {
                assert(all[j] == up[j - 1]);
            }
        }
    }
}

/// Every well-formed tree whose table fits the machine is loadable: what
/// the engine holds can always be stored and taken again.
pub proof fn lemma_wf_is_loadable(t: TreeModel, depth: Seq<nat>)
    requires
        t.wf(depth),
        t.nodes.len() <= usize::MAX,
    ensures
        t.loadable(),
{
    assert forall|i: int| 0 <= i < t.nodes.len() implies #[trigger] t.node_shape_ok(i) by {
        assert(t.node_ok(depth, i));
        let n = t.nodes[i];
        if let Some(p) = n.parent_id {
            assert(t.nodes[p as int].ordered_children.contains(i as usize) <==> t.child_link(
                p,
                i as usize,
            ));
        }
        assert forall|k: int| 0 <= k < n.ordered_children.len() implies t.child_link(
            i as usize,
            #[trigger] n.ordered_children[k],
        ) by {
            assert(n.ordered_children.contains(n.ordered_children[k]));
            assert(t.nodes[i as usize as int].ordered_children.contains(n.ordered_children[k])
                <==> t.child_link(i as usize, n.ordered_children[k]));
        }
    }
    assert forall|i: int| 0 <= i < t.nodes.len() implies #[trigger] rooted(t.nodes, i) by {
        lemma_chain_reaches(t, depth, i as usize);
        let chain = ancestors(t.nodes, depth, i);
        lemma_distinct_below(chain, t.nodes.len());
    }
    assert forall|k: int| 0 <= k < t.trash.len() implies (#[trigger] t.trash[k] as int)
        < t.nodes.len() && listed(t.nodes[t.trash[k] as int], true) by {
        assert(t.trash.contains(t.trash[k]));
    }
    assert forall|i: int| 0 <= i < t.nodes.len() && listed(#[trigger] t.nodes[i], true) implies t.trash.contains(
        i as usize,
    ) by {
        assert(t.is_trashed(i as usize));
    }
    assert forall|k: int| 0 <= k < t.favorites.len() implies (#[trigger] t.favorites[k] as int)
        < t.nodes.len() && listed(t.nodes[t.favorites[k] as int], false) by {
        assert(t.favorites.contains(t.favorites[k]));
    }
    assert forall|i: int|
        0 <= i < t.nodes.len() && listed(#[trigger] t.nodes[i], false) implies t.favorites.contains(
        i as usize,
    ) by {
        assert(t.favorites.contains(i as usize) <==> ((i as usize as int) < t.nodes.len()
            && t.nodes[i as usize as int].is_favorite));
    }
}

/// Whether nothing occurs twice in `v`.
pub fn no_repeats(v: &Vec<usize>) -> (r: bool)
    ensures
        r == v@.no_duplicates(),
{
    let mut i: usize = 0;
    while i < v.len()
        invariant
            i <= v@.len(),
            forall|a: int, b: int| 0 <= a < b < i ==> v@[a] != v@[b],
        decreases v@.len() - i,
    {
        match index_of_id(v, v[i]) {
            Some(k) => {
                if k != i {
                    return false;
                }
            },
            None => {
                assert(v@.contains(v@[i as int]));
            },
        }
        i += 1;
    }
    true
}

/// Whether exactly the nodes that ask for an entry stand in `list`, each
/// once.
pub fn ledger_check(nodes: &Vec<Node>, list: &Vec<usize>, trash: bool) -> (r: bool)
    ensures
        r == ledger_ok(table(nodes@), list@, trash),
{
    if !no_repeats(list) {
        return false;
    }
    let mut k: usize = 0;
    while k < list.len()
        invariant
            k <= list@.len(),
            forall|j: int|
                0 <= j < k ==> (#[trigger] list@[j] as int) < nodes@.len() && listed(
                    table(nodes@)[list@[j] as int],
                    trash,
                ),
        decreases list@.len() - k,
    {
        let id: usize = list[k];
        if id >= nodes.len() {
            return false;
        }
        let wanted: bool = if trash {
            nodes[id].status == Status::Trashed
        } else {
            nodes[id].is_favorite
        };
        if !wanted {
            return false;
        }
        k += 1;
    }
    let mut i: usize = 0;
    while i < nodes.len()
        invariant
            i <= nodes@.len(),
            forall|j: int|
                0 <= j < i && listed(#[trigger] table(nodes@)[j], trash) ==> list@.contains(
                    j as usize,
                ),
        decreases nodes@.len() - i,
    {
        let wanted: bool = if trash {
            nodes[i].status == Status::Trashed
        } else {
            nodes[i].is_favorite
        };
        if wanted {
            match index_of_id(list, i) {
                Some(_) => {},
                None => {
                    assert(listed(table(nodes@)[i as int], trash));
                    return false;
                },
            }
        }
        i += 1;
    }
    true
}

/// Whether the node `i` alone is as the invariant asks.
pub fn node_check(nodes: &Vec<Node>, i: usize) -> (r: bool)
    requires
        (i as int) < nodes@.len(),
    ensures
        r == (TreeModel {
            nodes: table(nodes@),
            trash: Seq::empty(),
            favorites: Seq::empty(),
        }).node_shape_ok(i as int),
{
    let ghost t = TreeModel { nodes: table(nodes@), trash: Seq::empty(), favorites: Seq::empty() };
    let n = &nodes[i];
    if !no_repeats(&n.ordered_children) {
        return false;
    }
    match n.parent_id {
        Some(p) => {
            if p >= nodes.len() {
                return false;
            }
            if n.kind != Kind::View || n.status == Status::Purged || nodes[p].status
                == Status::Purged {
                return false;
            }
            if n.status == Status::Live {
                match index_of_id(&nodes[p].ordered_children, i) {
                    Some(_) => {},
                    None => {
                        return false;
                    },
                }
            }
        },
        None => {},
    }
    if n.status == Status::Purged && (n.ordered_children.len() != 0 || n.is_favorite || n.kind
        != Kind::View) {
        return false;
    }
    if n.kind == Kind::Workspace && n.status != Status::Live {
        return false;
    }
    let mut k: usize = 0;
    while k < n.ordered_children.len()
        invariant
            k <= n.ordered_children@.len(),
            *n == nodes@[i as int],
            t.nodes == table(nodes@),
            (i as int) < nodes@.len(),
            forall|j: int|
                0 <= j < k ==> t.child_link(i, #[trigger] t.nodes[i as int].ordered_children[j]),
        decreases n.ordered_children@.len() - k,
    {
        let c: usize = n.ordered_children[k];
        if c >= nodes.len() {
            assert(!t.child_link(i, t.nodes[i as int].ordered_children[k as int]));
            return false;
        }
        let linked: bool = match nodes[c].parent_id {
            Some(q) => q == i,
            None => false,
        };
        if !linked || nodes[c].status != Status::Live {
            assert(!t.child_link(i, t.nodes[i as int].ordered_children[k as int]));
            return false;
        }
        k += 1;
    }
    true
}

/// Whether the node `x` reaches a root within as many steps as the table
/// has entries.
pub fn root_check(nodes: &Vec<Node>, x: usize) -> (r: bool)
    requires
        (x as int) < nodes@.len(),
    ensures
        r == rooted(table(nodes@), x as int),
{
    let ghost t = table(nodes@);
    let mut cur: usize = x;
    let mut taken: usize = 0;
    while taken <= nodes.len()
        invariant
            t == table(nodes@),
            (cur as int) < nodes@.len(),
            taken <= nodes@.len(),
            forall|k: nat| #[trigger]
                reaches_root(t, x as int, k) <==> (k >= taken && reaches_root(
                    t,
                    cur as int,
                    (k - taken) as nat,
                )),
        decreases nodes@.len() - taken,
    {
        match nodes[cur].parent_id {
            None => {
                proof {
                    assert(reaches_root(t, cur as int, 0));
                    assert(reaches_root(t, x as int, taken as nat));
                }
                return true;
            },
            Some(p) => {
                if p >= nodes.len() || taken == nodes.len() {
                    proof {
                        assert forall|k: nat| k <= t.len() implies !reaches_root(t, x as int, k) by {
                            if k >= taken {
                                let j = (k - taken) as nat;
                                if j > 0 {
                                    assert(!reaches_root(t, p as int, (j - 1) as nat)
                                        || (p as int) < t.len());
                                }
                                assert(!reaches_root(t, cur as int, j));
                            }
                        }
                    }
                    return false;
                }
                proof {
                    assert forall|k: nat| #[trigger]
                        reaches_root(t, x as int, k) <==> (k >= taken + 1 && reaches_root(
                            t,
                            p as int,
                            (k - (taken + 1)) as nat,
                        )) by {
                        if k >= taken {
                            let j = (k - taken) as nat;
                            assert(reaches_root(t, cur as int, j) <==> (j > 0 && reaches_root(
                                t,
                                p as int,
                                (j - 1) as nat,
                            )));
                        }
                    }
                }
                cur = p;
                taken += 1;
            },
        }
    }
    false
}

impl FolderEngine {
    /// Takes stored state as the tree of a new engine, with no open
    /// workspace, no active view and empty histories. Fails with
    /// `InvalidOperation` exactly where the state is not loadable.
    pub fn load(nodes: Vec<Node>, trash: Vec<usize>, favorites: Vec<usize>, retention: usize) -> (r:
        Result<FolderEngine, FolderError>)
        ensures
            match r {
                Ok(e) => {
                    &&& e.wf()
                    &&& e.tree().loadable()
                    &&& e.tree() == (TreeModel {
                        nodes: table(nodes@),
                        trash: trash@,
                        favorites: favorites@,
                    })
                    &&& e.current_view is None
                    &&& e.open_workspace is None
                    &&& e.retention == retention
                    &&& forall|w: usize| e.history(w).len() == 0
                },
                Err(e) => e == FolderError::InvalidOperation && !(TreeModel {
                    nodes: table(nodes@),
                    trash: trash@,
                    favorites: favorites@,
                }).loadable(),
            },
    {
        let ghost t = TreeModel { nodes: table(nodes@), trash: trash@, favorites: favorites@ };
        let ghost bare = TreeModel {
            nodes: table(nodes@),
            trash: Seq::empty(),
            favorites: Seq::empty(),
        };
        let n: usize = nodes.len();
        if n == 0 || nodes[0].status != Status::Purged {
            return Err(FolderError::InvalidOperation);
        }
        if !ledger_check(&nodes, &trash, true) || !ledger_check(&nodes, &favorites, false) {
            return Err(FolderError::InvalidOperation);
        }
        let mut histories: Vec<Vec<Snapshot>> = Vec::new();
        let mut i: usize = 0;
        while i < n
            invariant
                i <= n,
                n == nodes@.len(),
                n > 0,
                t == (TreeModel { nodes: table(nodes@), trash: trash@, favorites: favorites@ }),
                t.nodes[0].status == Status::Purged,
                ledger_ok(t.nodes, t.trash, true),
                ledger_ok(t.nodes, t.favorites, false),
                bare.nodes == t.nodes,
                histories@.len() == i,
                forall|w: int| 0 <= w < i ==> (#[trigger] histories@[w])@.len() == 0,
                forall|j: int| 0 <= j < i ==> #[trigger] t.node_shape_ok(j),
                forall|j: int| 0 <= j < i ==> #[trigger] rooted(t.nodes, j),
            decreases n - i,
        {
            proof {
                assert(bare.node_shape_ok(i as int) == t.node_shape_ok(i as int));
            }
            if !node_check(&nodes, i) {
                proof {
                    assert(!t.node_shape_ok(i as int));
                }
                return Err(FolderError::InvalidOperation);
            }
            if !root_check(&nodes, i) {
                proof {
                    assert(!rooted(t.nodes, i as int));
                }
                return Err(FolderError::InvalidOperation);
            }
            histories.push(Vec::new());
            i += 1;
        }
        proof {
            lemma_loadable_wf(t);
        }
        let depth: Ghost<Seq<nat>> = Ghost(t.root_distances());
        let e = FolderEngine {
            nodes,
            trash,
            favorites,
            current_view: None,
            open_workspace: None,
            histories,
            retention,
            depth,
        };
        proof {
            assert(e.tree() == t);
            assert forall|w: usize| e.history(w).len() == 0 by {
                if (w as int) < e.histories@.len() {
                    assert(e.histories@[w as int]@.len() == 0);
                }
            }
        }
        Ok(e)
    }
}

} // verus!
