//! The dependencies of cells, written out as a tree.
use uuid::Uuid;
use vstd::prelude::*;
use vstd::string::{StrSliceExecFns, StringExecFns};

use crate::diff::saturated;
use crate::fx::FxSet;
use crate::value::{CellValue, MapKey};

verus! {

/// A hexadecimal digit.
pub open spec fn hex_char(digit: u128) -> char {
    if digit < 10 {
        ('0' as u32 + digit) as char
    } else {
        ('a' as u32 + digit - 10) as char
    }
}

/// Sixteen to the power of `n`.
pub open spec fn sixteen_to(n: nat) -> nat
    decreases n,
{
    if n == 0 {
        1
    } else {
        16 * sixteen_to((n - 1) as nat)
    }
}

/// The digit of an identifier at a place, counted from the most significant of its 32.
pub open spec fn id_digit(id: u128, place: nat) -> char {
    hex_char(((id as nat / sixteen_to((31 - place) as nat)) % 16) as u128)
}

/// The character at a place of the text of an identifier: 32 digits in groups of 8, 4, 4, 4 and 12,
/// with hyphens between the groups.
pub open spec fn id_char(id: u128, place: nat) -> char {
    if place == 8 || place == 13 || place == 18 || place == 23 {
        '-'
    } else if place < 8 {
        id_digit(id, place)
    } else if place < 13 {
        id_digit(id, (place - 1) as nat)
    } else if place < 18 {
        id_digit(id, (place - 2) as nat)
    } else if place < 23 {
        id_digit(id, (place - 3) as nat)
    } else {
        id_digit(id, (place - 4) as nat)
    }
}

/// The text of an identifier.
pub open spec fn id_text(id: u128) -> Seq<char> {
    Seq::new(36, |i: int| id_char(id, i as nat))
}

/// `Uuid::from_u128` and `Display`: the digits of the number in lower case, in five groups with
/// hyphens between them.
#[verifier::external_body]
fn uuid_text(id: u128) -> (text: String)
    ensures
        text@ == id_text(id),
{
    Uuid::from_u128(id).to_string()
}

/// A node of a dependency graph: its identifier, its name if it has one, and the places of the
/// nodes that it depends on.
pub struct DepNode {
    pub id: u128,
    pub name: Option<String>,
    pub deps: Vec<usize>,
}

impl DepNode {
    /// The name of a node, or one made from its identifier.
    pub open spec fn display(&self) -> Seq<char> {
        match self.name {
            Some(name) => name@,
            None => "Cell("@ + id_text(self.id).subrange(0, 8) + ")"@,
        }
    }

    pub fn display_name(&self) -> (name: String)
        ensures
            name@ == self.display(),
            self.name matches Some(given) ==> name@ == given@,
            self.name is None ==> name@ == "Cell("@ + id_text(self.id).take(8) + ")"@,
    {
        assert(id_text(self.id).take(8) =~= id_text(self.id).subrange(0, 8));
        match &self.name {
            Some(name) => name.clone(),
            None => {
                let text = uuid_text(self.id);
                let mut name = String::from_str("Cell(");
                name.append(text.as_str().substring_char(0, 8));
                name.append(")");
                name
            },
        }
    }

    pub fn dependency_count(&self) -> (count: usize)
        ensures
            count == self.deps@.len(),
    {
        self.deps.len()
    }

    pub fn has_dependencies(&self) -> (has: bool)
        ensures
            has == (self.deps@.len() > 0),
    {
        self.deps.len() > 0
    }
}

/// Nodes and the nodes that they depend on, each named by its place.
pub struct DepGraph {
    pub nodes: Vec<DepNode>,
}

/// The tree below a node as text, and the identifiers that have been written out. A node that has
/// been written out before is marked, and what is below it is left out.
pub open spec fn tree(
    nodes: Seq<DepNode>,
    depth: nat,
    node: int,
    prefix: Seq<char>,
    visited: Set<u128>,
) -> (Seq<char>, Set<u128>)
    decreases depth, 0nat,
{
    if depth == 0 {
        (Seq::empty(), visited)
    } else {
        let head = nodes[node].display() + "\n"@;
        if visited.contains(nodes[node].id) {
            (head + prefix + "(cycle)\n"@, visited)
        } else {
            let (text, seen) = branches(
                nodes,
                (depth - 1) as nat,
                nodes[node].deps@,
                nodes[node].deps@.len(),
                prefix,
                visited.insert(nodes[node].id),
            );
            (head + text, seen)
        }
    }
}

/// The first `n` branches of a tree.
pub open spec fn branches(
    nodes: Seq<DepNode>,
    depth: nat,
    deps: Seq<usize>,
    n: nat,
    prefix: Seq<char>,
    visited: Set<u128>,
) -> (Seq<char>, Set<u128>)
    decreases depth, n,
{
    if n == 0 {
        (Seq::empty(), visited)
    } else {
        let (text, seen) = branches(nodes, depth, deps, (n - 1) as nat, prefix, visited);
        let last = n == deps.len();
        let (below, all) = tree(
            nodes,
            depth,
            deps[n - 1] as int,
            prefix + (if last {
                "   "@
            } else {
                "│  "@
            }),
            seen,
        );
        (
            text + prefix + (if last {
                "└─ "@
            } else {
                "├─ "@
            }) + below,
            all,
        )
    }
}

impl DepGraph {
    /// Every dependency is a node of the graph.
    pub open spec fn wf(&self) -> bool {
        forall|n: int, d: int|
            0 <= n < self.nodes@.len() && 0 <= d < self.nodes@[n].deps@.len()
                ==> #[trigger] self.nodes@[n].deps@[d] < self.nodes@.len()
    }

    fn write_tree(
        &self,
        depth: usize,
        node: usize,
        prefix: &String,
        out: &mut String,
        visited: &mut FxSet<u128>,
    )
        requires
            self.wf(),
            node < self.nodes@.len(),
        ensures
            final(out)@ == old(out)@ + tree(
                self.nodes@,
                depth as nat,
                node as int,
                prefix@,
                old(visited)@,
            ).0,
            final(visited)@ == tree(
                self.nodes@,
                depth as nat,
                node as int,
                prefix@,
                old(visited)@,
            ).1,
        decreases depth,
    {
        let ghost start = out@;
        let ghost seen = visited@;
        if depth == 0 {
            assert(start + Seq::empty() =~= start);
            return;
        }
        let item = &self.nodes[node];
        let name = item.display_name();
        out.append(name.as_str());
        out.append("\n");
        let ghost head = item.display() + "\n"@;
        assert(out@ =~= start + head);
        if visited.contains(&item.id) {
            out.append(prefix.as_str());
            out.append("(cycle)\n");
            assert(out@ =~= start + (head + prefix@ + "(cycle)\n"@));
            return;
        }
        visited.insert(item.id);
        let ghost marked = seen.insert(item.id);
        let ghost deps = item.deps@;
        let mut i: usize = 0;
        assert(start + head + Seq::empty() =~= start + head);
        while i < item.deps.len()
            invariant
                i <= item.deps@.len(),
                self.wf(),
                node < self.nodes@.len(),
                depth > 0,
                *item == self.nodes@[node as int],
                deps == item.deps@,
                out@ == start + head + branches(
                    self.nodes@,
                    (depth - 1) as nat,
                    deps,
                    i as nat,
                    prefix@,
                    marked,
                ).0,
                visited@ == branches(
                    self.nodes@,
                    (depth - 1) as nat,
                    deps,
                    i as nat,
                    prefix@,
                    marked,
                ).1,
            decreases item.deps@.len() - i,
        {
            let last: bool = i == item.deps.len() - 1;
            let ghost sofar = out@;
            let ghost text = branches(
                self.nodes@,
                (depth - 1) as nat,
                deps,
                i as nat,
                prefix@,
                marked,
            ).0;
            let child = item.deps[i];
            assert(self.nodes@[node as int].deps@[i as int] < self.nodes@.len());
            let connector: &str = if last {
                "└─ "
            } else {
                "├─ "
            };
            let indent: &str = if last {
                "   "
            } else {
                "│  "
            };
            let mut child_prefix = prefix.clone();
            child_prefix.append(indent);
            out.append(prefix.as_str());
            out.append(connector);
            let ghost before = out@;
            self.write_tree(depth - 1, child, &child_prefix, out, visited);
            proof {
                let below = tree(
                    self.nodes@,
                    (depth - 1) as nat,
                    child as int,
                    prefix@ + indent@,
                    branches(self.nodes@, (depth - 1) as nat, deps, i as nat, prefix@, marked).1,
                ).0;
                assert(out@ =~= start + head + (text + prefix@ + connector@ + below));
            }
            i += 1;
        }
        assert(out@ =~= start + (head + branches(
            self.nodes@,
            (depth - 1) as nat,
            deps,
            deps.len(),
            prefix@,
            marked,
        ).0));
    }

    /// The tree of dependencies below a node, one node to a line.
    pub fn dependency_tree(&self, root: usize) -> (text: String)
        requires
            self.wf(),
            root < self.nodes@.len(),
        ensures
            text@ == tree(
                self.nodes@,
                saturated(self.nodes@.len() + 1) as nat,
                root as int,
                Seq::empty(),
                Set::empty(),
            ).0,
    {
        let mut out = String::new();
        let mut visited: FxSet<u128> = FxSet::new();
        let depth = self.nodes.len().saturating_add(1);
        let prefix = String::new();
        self.write_tree(depth, root, &prefix, &mut out, &mut visited);
        assert(out@ =~= tree(
            self.nodes@,
            depth as nat,
            root as int,
            Seq::empty(),
            Set::empty(),
        ).0);
        out
    }
}

/// The number of nodes that have not been written out.
pub open spec fn unvisited(nodes: Seq<DepNode>, visited: Set<u128>) -> nat
    decreases nodes.len(),
{
    if nodes.len() == 0 {
        0
    } else {
        unvisited(nodes.drop_last(), visited) + (if visited.contains(nodes.last().id) {
            0nat
        } else {
            1
        })
    }
}

proof fn unvisited_shrinks(nodes: Seq<DepNode>, a: Set<u128>, b: Set<u128>)
    requires
        a.subset_of(b),
    ensures
        unvisited(nodes, b) <= unvisited(nodes, a),
        unvisited(nodes, a) <= nodes.len(),
    decreases nodes.len(),
{
    if nodes.len() > 0 {
        unvisited_shrinks(nodes.drop_last(), a, b);
    }
}

proof fn unvisited_mark(nodes: Seq<DepNode>, visited: Set<u128>, node: int)
    requires
        0 <= node < nodes.len(),
        !visited.contains(nodes[node].id),
    ensures
        unvisited(nodes, visited.insert(nodes[node].id)) < unvisited(nodes, visited),
    decreases nodes.len(),
{
    let rest = nodes.drop_last();
    let marked = visited.insert(nodes[node].id);
    unvisited_shrinks(rest, visited, marked);
    if node < rest.len() {
        unvisited_mark(rest, visited, node);
    }
}

/// A depth beyond the number of nodes that have not been written out makes no difference: the whole
/// tree is written.
pub proof fn tree_is_whole(
    nodes: Seq<DepNode>,
    depth: nat,
    more: nat,
    node: int,
    prefix: Seq<char>,
    visited: Set<u128>,
)
    requires
        0 <= node < nodes.len(),
        forall|n: int, d: int|
            0 <= n < nodes.len() && 0 <= d < nodes[n].deps@.len() ==> #[trigger] nodes[n].deps@[d]
                < nodes.len(),
        unvisited(nodes, visited) < depth,
        depth <= more,
    ensures
        tree(nodes, depth, node, prefix, visited) == tree(nodes, more, node, prefix, visited),
        visited.subset_of(tree(nodes, depth, node, prefix, visited).1),
    decreases depth, 0nat,
{
    if !visited.contains(nodes[node].id) {
        unvisited_mark(nodes, visited, node);
        branches_are_whole(
            nodes,
            (depth - 1) as nat,
            (more - 1) as nat,
            node,
            nodes[node].deps@.len(),
            prefix,
            visited.insert(nodes[node].id),
        );
    }
}

proof fn branches_are_whole(
    nodes: Seq<DepNode>,
    depth: nat,
    more: nat,
    node: int,
    n: nat,
    prefix: Seq<char>,
    visited: Set<u128>,
)
    requires
        0 <= node < nodes.len(),
        n <= nodes[node].deps@.len(),
        forall|n: int, d: int|
            0 <= n < nodes.len() && 0 <= d < nodes[n].deps@.len() ==> #[trigger] nodes[n].deps@[d]
                < nodes.len(),
        unvisited(nodes, visited) < depth,
        depth <= more,
    ensures
        branches(nodes, depth, nodes[node].deps@, n, prefix, visited) == branches(
            nodes,
            more,
            nodes[node].deps@,
            n,
            prefix,
            visited,
        ),
        visited.subset_of(branches(nodes, depth, nodes[node].deps@, n, prefix, visited).1),
    decreases depth, n,
{
    if n > 0 {
        let deps = nodes[node].deps@;
        branches_are_whole(nodes, depth, more, node, (n - 1) as nat, prefix, visited);
        let seen = branches(nodes, depth, deps, (n - 1) as nat, prefix, visited).1;
        unvisited_shrinks(nodes, visited, seen);
        let indent = if n == deps.len() { "   "@ } else { "│  "@ };
        assert(nodes[node].deps@[n - 1] < nodes.len());
        tree_is_whole(nodes, depth, more, deps[n - 1] as int, prefix + indent, seen);
    }
}

/// A node depends on another.
pub open spec fn depends_on(nodes: Seq<DepNode>, node: int, other: int) -> bool {
    exists|d: int| 0 <= d < nodes[node].deps@.len() && (#[trigger] nodes[node].deps@[d]) as int == other
}

/// The nodes of a path, each one a dependency of the one before it.
pub open spec fn is_path(nodes: Seq<DepNode>, path: Seq<int>) -> bool {
    &&& path.len() > 0
    &&& forall|i: int| 0 <= i < path.len() ==> 0 <= #[trigger] path[i] < nodes.len()
    &&& forall|i: int|
        0 <= i < path.len() - 1 ==> depends_on(nodes, #[trigger] path[i], path[i + 1])
}

/// A node from which an identifier is reached over dependencies.
pub open spec fn reaches(nodes: Seq<DepNode>, from: int, id: u128) -> bool {
    exists|path: Seq<int>| #[trigger]
        is_path(nodes, path) && path[0] == from && nodes[path.last()].id == id
}

/// No two nodes share an identifier.
pub open spec fn distinct_ids(nodes: Seq<DepNode>) -> bool {
    forall|i: int, j: int|
        0 <= i < nodes.len() && 0 <= j < nodes.len() && (#[trigger] nodes[i]).id == (
        #[trigger] nodes[j]).id ==> i == j
}

/// Every dependency is a node.
pub open spec fn deps_in(nodes: Seq<DepNode>) -> bool {
    forall|n: int, d: int|
        0 <= n < nodes.len() && 0 <= d < nodes[n].deps@.len() ==> #[trigger] nodes[n].deps@[d]
            < nodes.len()
}

/// The nodes that have come to be written out have all their dependencies written out.
spec fn closed_since(nodes: Seq<DepNode>, visited: Set<u128>, seen: Set<u128>) -> bool {
    forall|n: int, d: int|
        0 <= n < nodes.len() && 0 <= d < nodes[n].deps@.len() && seen.contains(nodes[n].id)
            && !visited.contains(nodes[n].id) ==> seen.contains(
            nodes[#[trigger] nodes[n].deps@[d] as int].id,
        )
}

proof fn path_of_one(nodes: Seq<DepNode>, node: int)
    requires
        0 <= node < nodes.len(),
    ensures
        reaches(nodes, node, nodes[node].id),
{
    let path = seq![node];
    assert(is_path(nodes, path) && path[0] == node && nodes[path.last()].id == nodes[node].id);
}

proof fn path_longer(nodes: Seq<DepNode>, node: int, d: int, id: u128)
    requires
        0 <= node < nodes.len(),
        0 <= d < nodes[node].deps@.len(),
        reaches(nodes, nodes[node].deps@[d] as int, id),
    ensures
        reaches(nodes, node, id),
{
    let child = nodes[node].deps@[d] as int;
    let path = choose|path: Seq<int>| #[trigger]
        is_path(nodes, path) && path[0] == child && nodes[path.last()].id == id;
    let longer = seq![node] + path;
    assert forall|i: int| 0 <= i < longer.len() implies 0 <= #[trigger] longer[i] < nodes.len() by {
        if i > 0 {
            assert(longer[i] == path[i - 1]);
        }
    }
    assert forall|i: int| 0 <= i < longer.len() - 1 implies depends_on(
        nodes,
        #[trigger] longer[i],
        longer[i + 1],
    ) by {
        if i > 0 {
            assert(longer[i] == path[i - 1]);
            assert(longer[i + 1] == path[i - 1 + 1]);
        } else {
            assert(longer[1] == path[0]);
            assert(nodes[node].deps@[d] as int == longer[1]);
        }
    }
    assert(longer.last() == path.last());
    assert(is_path(nodes, longer) && longer[0] == node && nodes[longer.last()].id == id);
}

proof fn tree_visits(
    nodes: Seq<DepNode>,
    depth: nat,
    node: int,
    prefix: Seq<char>,
    visited: Set<u128>,
)
    requires
        0 <= node < nodes.len(),
        deps_in(nodes),
        distinct_ids(nodes),
        unvisited(nodes, visited) < depth,
    ensures
        visited.subset_of(tree(nodes, depth, node, prefix, visited).1),
        tree(nodes, depth, node, prefix, visited).1.contains(nodes[node].id),
        closed_since(nodes, visited, tree(nodes, depth, node, prefix, visited).1),
        forall|id: u128| #[trigger]
            tree(nodes, depth, node, prefix, visited).1.contains(id) && !visited.contains(id)
                ==> reaches(nodes, node, id),
    decreases depth, 0nat,
{
    let id = nodes[node].id;
    if !visited.contains(id) {
        unvisited_mark(nodes, visited, node);
        let marked = visited.insert(id);
        let deps = nodes[node].deps@;
        branches_visit(nodes, (depth - 1) as nat, node, deps.len(), prefix, marked);
        let seen = tree(nodes, depth, node, prefix, visited).1;
        assert(seen == branches(nodes, (depth - 1) as nat, deps, deps.len(), prefix, marked).1);
        path_of_one(nodes, node);
        assert forall|n: int, d: int|
            0 <= n < nodes.len() && 0 <= d < nodes[n].deps@.len() && seen.contains(nodes[n].id)
                && !visited.contains(nodes[n].id) implies seen.contains(
            nodes[#[trigger] nodes[n].deps@[d] as int].id,
        ) by {
            if nodes[n].id == id {
                assert(n == node);
            }
        }
    }
}

proof fn branches_visit(
    nodes: Seq<DepNode>,
    depth: nat,
    node: int,
    n: nat,
    prefix: Seq<char>,
    visited: Set<u128>,
)
    requires
        0 <= node < nodes.len(),
        n <= nodes[node].deps@.len(),
        deps_in(nodes),
        distinct_ids(nodes),
        unvisited(nodes, visited) < depth,
    ensures
        visited.subset_of(branches(nodes, depth, nodes[node].deps@, n, prefix, visited).1),
        forall|i: int|
            0 <= i < n ==> branches(nodes, depth, nodes[node].deps@, n, prefix, visited).1.contains(
                nodes[#[trigger] nodes[node].deps@[i] as int].id,
            ),
        closed_since(
            nodes,
            visited,
            branches(nodes, depth, nodes[node].deps@, n, prefix, visited).1,
        ),
        forall|id: u128| #[trigger]
            branches(nodes, depth, nodes[node].deps@, n, prefix, visited).1.contains(id)
                && !visited.contains(id) ==> reaches(nodes, node, id),
    decreases depth, n,
{
    if n > 0 {
        let deps = nodes[node].deps@;
        branches_visit(nodes, depth, node, (n - 1) as nat, prefix, visited);
        let mid = branches(nodes, depth, deps, (n - 1) as nat, prefix, visited).1;
        unvisited_shrinks(nodes, visited, mid);
        let indent = if n == deps.len() {
            "   "@
        } else {
            "│  "@
        };
        let child = nodes[node].deps@[n - 1] as int;
        assert(nodes[node].deps@[n - 1] < nodes.len());
        tree_visits(nodes, depth, child, prefix + indent, mid);
        let seen = tree(nodes, depth, child, prefix + indent, mid).1;
        assert(seen == branches(nodes, depth, deps, n, prefix, visited).1);
        assert forall|i: int| 0 <= i < n implies seen.contains(
            nodes[#[trigger] nodes[node].deps@[i] as int].id,
        ) by {
            if i < n - 1 {
                assert(mid.contains(nodes[nodes[node].deps@[i] as int].id));
            }
        }
        assert forall|id: u128| #[trigger] seen.contains(id) && !visited.contains(id) implies reaches(
            nodes,
            node,
            id,
        ) by {
            if !mid.contains(id) {
                path_longer(nodes, node, n - 1, id);
            }
        }
        assert forall|m: int, d: int|
            0 <= m < nodes.len() && 0 <= d < nodes[m].deps@.len() && seen.contains(nodes[m].id)
                && !visited.contains(nodes[m].id) implies seen.contains(
            nodes[#[trigger] nodes[m].deps@[d] as int].id,
        ) by {
            if mid.contains(nodes[m].id) {
                assert(mid.contains(nodes[nodes[m].deps@[d] as int].id));
            }
        }
    }
}

proof fn path_is_closed(nodes: Seq<DepNode>, seen: Set<u128>, path: Seq<int>, n: int)
    requires
        deps_in(nodes),
        is_path(nodes, path),
        closed_since(nodes, Set::empty(), seen),
        seen.contains(nodes[path[0]].id),
        0 <= n < path.len(),
    ensures
        seen.contains(nodes[path[n]].id),
    decreases n,
{
    if n > 0 {
        path_is_closed(nodes, seen, path, n - 1);
        let at = path[n - 1];
        assert(0 <= path[n] < nodes.len());
        assert(depends_on(nodes, path[n - 1], path[n - 1 + 1]));
        let d = choose|d: int|
            0 <= d < nodes[at].deps@.len() && (#[trigger] nodes[at].deps@[d]) as int == path[n];
        assert(seen.contains(nodes[nodes[at].deps@[d] as int].id));
    }
}

/// What a tree of dependencies writes out: after it, the identifiers of the nodes that are reached
/// from its root over dependencies, and no other.
pub proof fn tree_writes_what_is_reached(nodes: Seq<DepNode>, root: int)
    requires
        0 <= root < nodes.len(),
        nodes.len() < usize::MAX,
        deps_in(nodes),
        distinct_ids(nodes),
    ensures
        forall|id: u128| #[trigger]
            tree(
                nodes,
                saturated(nodes.len() + 1) as nat,
                root,
                Seq::empty(),
                Set::empty(),
            ).1.contains(id) <==> exists|path: Seq<int>| #[trigger]
                is_path(nodes, path) && path[0] == root && nodes[path.last()].id == id,
{
    let depth = saturated(nodes.len() + 1) as nat;
    let none = Set::<u128>::empty();
    unvisited_shrinks(nodes, none, none);
    tree_visits(nodes, depth, root, Seq::empty(), none);
    let seen = tree(nodes, depth, root, Seq::empty(), none).1;
    assert forall|id: u128| #[trigger] seen.contains(id) <==> exists|path: Seq<int>| #[trigger]
        is_path(nodes, path) && path[0] == root && nodes[path.last()].id == id by {
        if seen.contains(id) {
            assert(reaches(nodes, root, id));
        }
        if reaches(nodes, root, id) {
            let path = choose|path: Seq<int>| #[trigger]
                is_path(nodes, path) && path[0] == root && nodes[path.last()].id == id;
            path_is_closed(nodes, seen, path, path.len() - 1);
        }
    }
}

/// The parts of the first branches of a tree.
proof fn branches_in_parts(
    nodes: Seq<DepNode>,
    depth: nat,
    node: int,
    n: nat,
    prefix: Seq<char>,
    visited: Set<u128>,
) -> (r: (Seq<Seq<char>>, Seq<Set<u128>>, Seq<Seq<char>>))
    requires
        0 <= node < nodes.len(),
        n <= nodes[node].deps@.len(),
        deps_in(nodes),
        unvisited(nodes, visited) < depth,
    ensures
        r.0.len() == n,
        r.1.len() == n + 1,
        r.2.len() == n,
        r.1[0] == visited,
        r.1[n as int] == branches(nodes, depth, nodes[node].deps@, n, prefix, visited).1,
        forall|i: int|
            0 <= i < n ==> ((#[trigger] r.0[i]), r.1[i + 1]) == tree(
                nodes,
                depth,
                nodes[node].deps@[i] as int,
                prefix + (if i == nodes[node].deps@.len() - 1 {
                    "   "@
                } else {
                    "│  "@
                }),
                r.1[i],
            ),
        forall|i: int|
            0 <= i < n ==> #[trigger] r.2[i] == prefix + (if i == nodes[node].deps@.len() - 1 {
                "└─ "@
            } else {
                "├─ "@
            }) + r.0[i],
        forall|i: int| 0 <= i <= n ==> visited.subset_of(#[trigger] r.1[i]),
        branches(nodes, depth, nodes[node].deps@, n, prefix, visited).0 == r.2.flatten(),
    decreases n,
{
    let deps = nodes[node].deps@;
    if n == 0 {
        (Seq::empty(), seq![visited], Seq::empty())
    } else {
        let (parts, seen, lines) = branches_in_parts(
            nodes,
            depth,
            node,
            (n - 1) as nat,
            prefix,
            visited,
        );
        let last = n == deps.len();
        let indent = if last {
            "   "@
        } else {
            "│  "@
        };
        let connector = if last {
            "└─ "@
        } else {
            "├─ "@
        };
        assert(nodes[node].deps@[n - 1] < nodes.len());
        let mid = seen[n - 1];
        unvisited_shrinks(nodes, visited, mid);
        let (below, all) = tree(nodes, depth, deps[n - 1] as int, prefix + indent, mid);
        tree_is_whole(nodes, depth, depth, deps[n - 1] as int, prefix + indent, mid);
        let line = prefix + connector + below;
        lines.lemma_flatten_push(line);
        assert(lines.flatten() + prefix + connector + below =~= lines.flatten() + line);
        (parts.push(below), seen.push(all), lines.push(line))
    }
}

/// The text of a tree: the name of its node on a line of its own; below a node that is written for
/// the first time, for each of its dependencies in order one line that begins with a connector,
/// which is the closing one for the last, and goes on with the dependency's own tree, indented; and
/// below a node that has been written before, that it closes a cycle and nothing else.
pub proof fn tree_text(
    nodes: Seq<DepNode>,
    depth: nat,
    node: int,
    prefix: Seq<char>,
    visited: Set<u128>,
) -> (r: (Seq<Seq<char>>, Seq<Set<u128>>, Seq<Seq<char>>))
    requires
        0 <= node < nodes.len(),
        deps_in(nodes),
        unvisited(nodes, visited) < depth,
    ensures
        visited.contains(nodes[node].id) ==> tree(nodes, depth, node, prefix, visited) == (
            nodes[node].display() + "\n"@ + prefix + "(cycle)\n"@,
            visited,
        ),
        !visited.contains(nodes[node].id) ==> {
            &&& r.0.len() == nodes[node].deps@.len()
            &&& r.1.len() == nodes[node].deps@.len() + 1
            &&& r.2.len() == nodes[node].deps@.len()
            &&& r.1[0] == visited.insert(nodes[node].id)
            &&& r.1.last() == tree(nodes, depth, node, prefix, visited).1
            &&& forall|i: int|
                0 <= i < nodes[node].deps@.len() ==> ((#[trigger] r.0[i]), r.1[i + 1]) == tree(
                    nodes,
                    depth,
                    nodes[node].deps@[i] as int,
                    prefix + (if i == nodes[node].deps@.len() - 1 {
                        "   "@
                    } else {
                        "│  "@
                    }),
                    r.1[i],
                )
            &&& forall|i: int|
                0 <= i < nodes[node].deps@.len() ==> #[trigger] r.2[i] == prefix + (if i
                    == nodes[node].deps@.len() - 1 {
                    "└─ "@
                } else {
                    "├─ "@
                }) + r.0[i]
            &&& tree(nodes, depth, node, prefix, visited).0 == nodes[node].display() + "\n"@
                + r.2.flatten()
        },
{
    if visited.contains(nodes[node].id) {
        (Seq::empty(), Seq::empty(), Seq::empty())
    } else {
        unvisited_mark(nodes, visited, node);
        let marked = visited.insert(nodes[node].id);
        let n = nodes[node].deps@.len();
        let (parts, seen, lines) = branches_in_parts(
            nodes,
            (depth - 1) as nat,
            node,
            n,
            prefix,
            marked,
        );
        assert forall|i: int| 0 <= i < n implies ((#[trigger] parts[i]), seen[i + 1]) == tree(
            nodes,
            depth,
            nodes[node].deps@[i] as int,
            prefix + (if i == nodes[node].deps@.len() - 1 {
                "   "@
            } else {
                "│  "@
            }),
            seen[i],
        ) by {
            assert(nodes[node].deps@[i] < nodes.len());
            unvisited_shrinks(nodes, marked, seen[i]);
            tree_is_whole(
                nodes,
                (depth - 1) as nat,
                depth,
                nodes[node].deps@[i] as int,
                prefix + (if i == nodes[node].deps@.len() - 1 {
                    "   "@
                } else {
                    "│  "@
                }),
                seen[i],
            );
        }
        (parts, seen, lines)
    }
}

/// The name of a node without one: the first eight digits of its identifier, in a word that says it
/// is a cell.
pub proof fn name_of_unnamed(node: DepNode)
    requires
        node.name is None,
    ensures
        node.display().len() == 14,
        node.display().take(5) == "Cell("@,
        forall|i: int|
            0 <= i < 8 ==> #[trigger] node.display()[5 + i] == hex_char(
                ((node.id as nat / sixteen_to((31 - i) as nat)) % 16) as u128,
            ),
        node.display()[13] == ')',
{
    reveal_strlit("Cell(");
    reveal_strlit(")");
    assert(node.display().take(5) =~= "Cell("@);
}

} // verus!
