//! The graph of subnets that the nodes of a manifest span.
//!
//! The vertices are the subnets. Two subnets are linked where one node lists
//! both. The graph is searched by merging components: at first each subnet is
//! a component of its own; then, node by node, the components of the subnets
//! that the node lists become one.
use vstd::prelude::*;

use crate::entries::{
    has_key, keys, lemma_has_key, lemma_position, lemma_swap_removed, lemma_with_value,
    swap_removed, value, with_value,
};
use crate::manifest::{
    attached, is_subnet, lemma_nodes_by_subnet, lemma_subnet_order, nodes_by_subnet, subnet_order,
    Manifest,
};

verus! {

/// Whether some node lists both subnets.
pub open spec fn linked(manifest: Manifest, a: Seq<char>, b: Seq<char>) -> bool {
    exists|n: int|
        0 <= n < manifest.len() && (#[trigger] manifest[n]).1.contains(a) && manifest[n].1.contains(
            b,
        )
}

/// Whether each subnet on the path is linked with the next.
pub open spec fn is_path(manifest: Manifest, path: Seq<Seq<char>>) -> bool {
    &&& path.len() > 0
    &&& forall|i: int|
        0 <= i < path.len() - 1 ==> linked(manifest, #[trigger] path[i], path[i + 1])
}

/// Whether a path leads from one subnet to the other.
pub open spec fn reachable(manifest: Manifest, a: Seq<char>, b: Seq<char>) -> bool {
    exists|path: Seq<Seq<char>>| #[trigger]
        is_path(manifest, path) && path.first() == a && path.last() == b
}

/// Whether every subnet can be reached from every other.
pub open spec fn connected(manifest: Manifest) -> bool {
    forall|a: Seq<char>, b: Seq<char>|
        is_subnet(manifest, a) && is_subnet(manifest, b) ==> #[trigger] reachable(manifest, a, b)
}

/// How far the components have been merged.
pub struct Merging {
    /// The components, each under the name of its leading subnet and with the
    /// nodes on its subnets.
    pub components: Seq<(Seq<char>, Seq<Seq<char>>)>,
    /// The leading subnet of the component that a subnet belongs to.
    pub leader: spec_fn(Seq<char>) -> Seq<char>,
}

impl Merging {
    /// Each subnet is a component of its own.
    pub open spec fn start(manifest: Manifest) -> Merging {
        Merging { components: nodes_by_subnet(manifest), leader: |s: Seq<char>| s }
    }

    /// The component led by `from` becomes part of the one led by `into`.
    pub open spec fn absorb(self, from: Seq<char>, into: Seq<char>) -> Merging {
        let rest = swap_removed(self.components, from);
        Merging {
            components: with_value(
                rest,
                into,
                value(rest, into) + value(self.components, from),
            ),
            leader: |s: Seq<char>|
                if (self.leader)(s) == from {
                    into
                } else {
                    (self.leader)(s)
                },
        }
    }

    /// The components of two subnets become one. A subnet that still leads its
    /// component joins that of the first subnet; one that has joined another
    /// component already draws the first subnet's component into that.
    pub open spec fn merge(self, first: Seq<char>, subnet: Seq<char>) -> Merging {
        let first_leader = (self.leader)(first);
        let leader = (self.leader)(subnet);
        if first_leader == leader {
            self
        } else if subnet == leader {
            self.absorb(subnet, first_leader)
        } else {
            self.absorb(first_leader, leader)
        }
    }

    /// The components of all the subnets that a node lists become one: each is
    /// merged with the first, in the order listed.
    pub open spec fn merge_list(self, subnets: Seq<Seq<char>>) -> Merging
        decreases subnets.len(),
    {
        if subnets.len() <= 1 {
            self
        } else {
            self.merge_list(subnets.drop_last()).merge(subnets.first(), subnets.last())
        }
    }

    /// The components are merged node by node.
    pub open spec fn merge_nodes(self, nodes: Manifest) -> Merging
        decreases nodes.len(),
    {
        if nodes.len() == 0 {
            self
        } else {
            self.merge_nodes(nodes.drop_last()).merge_list(nodes.last().1)
        }
    }

    /// Whether some subnet of the component that `key` leads has the node.
    pub open spec fn in_component(
        self,
        manifest: Manifest,
        key: Seq<char>,
        node: Seq<char>,
    ) -> bool {
        exists|s: Seq<char>|
            #![trigger (self.leader)(s)]
            (self.leader)(s) == key && attached(manifest, s, node)
    }

    /// What holds at every stage: the components are led by the subnets that
    /// are their own leaders; each subnet can reach its leader; each component
    /// has the nodes on its subnets.
    pub open spec fn valid(self, manifest: Manifest) -> bool {
        &&& keys(self.components).no_duplicates()
        &&& forall|s: Seq<char>| #[trigger]
            has_key(self.components, s) <==> is_subnet(manifest, s) && (self.leader)(s) == s
        &&& forall|s: Seq<char>|
            (self.leader)(#[trigger] (self.leader)(s)) == (self.leader)(s)
        &&& forall|s: Seq<char>|
            is_subnet(manifest, s) ==> is_subnet(manifest, #[trigger] (self.leader)(s))
                && reachable(manifest, s, (self.leader)(s))
        &&& forall|key: Seq<char>, node: Seq<char>|
            has_key(self.components, key) ==> (#[trigger] value(self.components, key).contains(node)
                <==> self.in_component(manifest, key, node))
    }

    /// Whether the subnets of the list are all in one component.
    pub open spec fn joins(self, subnets: Seq<Seq<char>>) -> bool {
        forall|i: int, j: int|
            0 <= i < subnets.len() && 0 <= j < subnets.len() ==> (self.leader)(
                #[trigger] subnets[i],
            ) == (self.leader)(#[trigger] subnets[j])
    }

    /// Whether subnets that were in one component still are.
    pub open spec fn coarser(self, before: Merging) -> bool {
        forall|a: Seq<char>, b: Seq<char>|
            #![trigger (before.leader)(a), (before.leader)(b)]
            (before.leader)(a) == (before.leader)(b) ==> (self.leader)(a) == (self.leader)(b)
    }
}

/// The components that are left when every node has been taken into account,
/// each under one of its subnets and with its nodes.
pub open spec fn components(manifest: Manifest) -> Seq<(Seq<char>, Seq<Seq<char>>)> {
    Merging::start(manifest).merge_nodes(manifest).components
}

/// Subnets that one node lists reach each other.
pub proof fn lemma_linked_reachable(manifest: Manifest, a: Seq<char>, b: Seq<char>)
    requires
        linked(manifest, a, b),
    ensures
        reachable(manifest, a, b),
{
    let path = seq![a, b];
    assert(is_path(manifest, path));
}

/// Every subnet reaches itself.
pub proof fn lemma_reachable_refl(manifest: Manifest, a: Seq<char>)
    ensures
        reachable(manifest, a, a),
{
    assert(is_path(manifest, seq![a]));
}

/// Paths can be walked backwards.
pub proof fn lemma_reachable_symmetric(manifest: Manifest, a: Seq<char>, b: Seq<char>)
    requires
        reachable(manifest, a, b),
    ensures
        reachable(manifest, b, a),
{
    let path = choose|path: Seq<Seq<char>>| #[trigger]
        is_path(manifest, path) && path.first() == a && path.last() == b;
    let back = path.reverse();
    assert forall|i: int| 0 <= i < back.len() - 1 implies linked(
        manifest,
        #[trigger] back[i],
        back[i + 1],
    ) by {
        let j = path.len() - 2 - i;
        assert(linked(manifest, path[j], path[j + 1]));
    }
    assert(is_path(manifest, back));
}

/// Paths can be joined.
pub proof fn lemma_reachable_transitive(
    manifest: Manifest,
    a: Seq<char>,
    b: Seq<char>,
    c: Seq<char>,
)
    requires
        reachable(manifest, a, b),
        reachable(manifest, b, c),
    ensures
        reachable(manifest, a, c),
{
    let p = choose|path: Seq<Seq<char>>| #[trigger]
        is_path(manifest, path) && path.first() == a && path.last() == b;
    let q = choose|path: Seq<Seq<char>>| #[trigger]
        is_path(manifest, path) && path.first() == b && path.last() == c;
    let joined = p + q.drop_first();
    assert forall|i: int| 0 <= i < joined.len() - 1 implies linked(
        manifest,
        #[trigger] joined[i],
        joined[i + 1],
    ) by {
        if i < p.len() - 1 {
            assert(linked(manifest, p[i], p[i + 1]));
        } else {
            let j = i - (p.len() - 1);
            assert(linked(manifest, q[j], q[j + 1]));
        }
    }
    assert(is_path(manifest, joined));
}

/// At the start each subnet leads itself.
pub proof fn lemma_start_valid(manifest: Manifest)
    ensures
        Merging::start(manifest).valid(manifest),
{
    let start = Merging::start(manifest);
    lemma_nodes_by_subnet(manifest);
    lemma_subnet_order(manifest);
    assert forall|s: Seq<char>| is_subnet(manifest, s) implies is_subnet(
        manifest,
        #[trigger] (start.leader)(s),
    ) && reachable(manifest, s, (start.leader)(s)) by {
        lemma_reachable_refl(manifest, s);
    }
    assert forall|key: Seq<char>, node: Seq<char>| has_key(start.components, key) implies (
    #[trigger] value(start.components, key).contains(node) <==> start.in_component(
        manifest,
        key,
        node,
    )) by {
        assert(is_subnet(manifest, key));
        assert((start.leader)(key) == key);
    }
}

/// A component may become part of one that its leader reaches.
proof fn lemma_absorb_valid(before: Merging, manifest: Manifest, from: Seq<char>, into: Seq<char>)
    requires
        before.valid(manifest),
        has_key(before.components, from),
        has_key(before.components, into),
        from != into,
        reachable(manifest, from, into),
    ensures
        before.absorb(from, into).valid(manifest),
        before.absorb(from, into).coarser(before),
        has_key(swap_removed(before.components, from), into),
{
    let after = before.absorb(from, into);
    let rest = swap_removed(before.components, from);
    let nodes = value(rest, into) + value(before.components, from);
    lemma_swap_removed(before.components, from);
    lemma_with_value(rest, into, nodes);
    assert forall|s: Seq<char>| is_subnet(manifest, s) implies is_subnet(
        manifest,
        #[trigger] (after.leader)(s),
    ) && reachable(manifest, s, (after.leader)(s)) by {
        assert(reachable(manifest, s, (before.leader)(s)));
        if (before.leader)(s) == from {
            lemma_reachable_transitive(manifest, s, from, into);
        }
    }
    assert forall|s: Seq<char>| #[trigger]
        has_key(after.components, s) <==> is_subnet(manifest, s) && (after.leader)(s) == s by {
        assert(has_key(rest, s) <==> s != from && has_key(before.components, s));
        assert(has_key(before.components, s) <==> is_subnet(manifest, s) && (before.leader)(s)
            == s);
    }
    assert forall|s: Seq<char>| (after.leader)(#[trigger] (after.leader)(s)) == (after.leader)(
        s,
    ) by {
        assert((before.leader)((before.leader)(s)) == (before.leader)(s));
    }
    assert forall|key: Seq<char>, node: Seq<char>| has_key(after.components, key) implies (
    #[trigger] value(after.components, key).contains(node) <==> after.in_component(
        manifest,
        key,
        node,
    )) by {
        assert(has_key(rest, key));
        assert(value(rest, key) == value(before.components, key));
        assert(value(rest, key).contains(node) <==> before.in_component(manifest, key, node));
        assert(value(before.components, from).contains(node) <==> before.in_component(
            manifest,
            from,
            node,
        ));
        lemma_in_component(before, manifest, from, into, key, node);
        if key == into {
            lemma_contains_concat(value(rest, into), value(before.components, from), node);
        }
    }
}

/// The nodes of the absorbed component are nodes of the absorbing one, and no
/// other component gains or loses any.
proof fn lemma_in_component(
    before: Merging,
    manifest: Manifest,
    from: Seq<char>,
    into: Seq<char>,
    key: Seq<char>,
    node: Seq<char>,
)
    requires
        key != from,
        from != into,
    ensures
        before.absorb(from, into).in_component(manifest, key, node) <==> {
            ||| before.in_component(manifest, key, node)
            ||| key == into && before.in_component(manifest, from, node)
        },
{
    let after = before.absorb(from, into);
    if after.in_component(manifest, key, node) {
        let s = choose|s: Seq<char>|
            #![trigger (after.leader)(s)]
            (after.leader)(s) == key && attached(manifest, s, node);
        assert((before.leader)(s) == key || key == into && (before.leader)(s) == from);
    }
    if before.in_component(manifest, key, node) {
        let s = choose|s: Seq<char>|
            #![trigger (before.leader)(s)]
            (before.leader)(s) == key && attached(manifest, s, node);
        assert((after.leader)(s) == key);
    }
    if key == into && before.in_component(manifest, from, node) {
        let s = choose|s: Seq<char>|
            #![trigger (before.leader)(s)]
            (before.leader)(s) == from && attached(manifest, s, node);
        assert((after.leader)(s) == key);
    }
}

/// What two lists hold, their concatenation holds.
proof fn lemma_contains_concat<A>(a: Seq<A>, b: Seq<A>, x: A)
    ensures
        (a + b).contains(x) <==> a.contains(x) || b.contains(x),
{
    if a.contains(x) {
        let i = choose|i: int| 0 <= i < a.len() && a[i] == x;
        assert((a + b)[i] == x);
    }
    if b.contains(x) {
        let i = choose|i: int| 0 <= i < b.len() && b[i] == x;
        assert((a + b)[a.len() + i] == x);
    }
    if (a + b).contains(x) {
        let i = choose|i: int| 0 <= i < (a + b).len() && (a + b)[i] == x;
        if i < a.len() {
            assert(a[i] == x);
        } else {
            assert(b[i - a.len()] == x);
        }
    }
}

/// Merging the components of two linked subnets puts the two into one.
pub proof fn lemma_merge_valid(
    before: Merging,
    manifest: Manifest,
    first: Seq<char>,
    subnet: Seq<char>,
)
    requires
        before.valid(manifest),
        linked(manifest, first, subnet),
    ensures
        before.merge(first, subnet).valid(manifest),
        before.merge(first, subnet).coarser(before),
        (before.merge(first, subnet).leader)(first) == (before.merge(first, subnet).leader)(subnet),
{
    let a = (before.leader)(first);
    let b = (before.leader)(subnet);
    if a != b {
        assert(is_subnet(manifest, first) && is_subnet(manifest, subnet));
        assert((before.leader)(a) == a && (before.leader)(b) == b);
        assert(has_key(before.components, a) && has_key(before.components, b));
        lemma_linked_reachable(manifest, first, subnet);
        lemma_reachable_symmetric(manifest, first, a);
        lemma_reachable_transitive(manifest, a, first, subnet);
        lemma_reachable_transitive(manifest, a, subnet, b);
        lemma_reachable_symmetric(manifest, a, b);
        if subnet == b {
            lemma_absorb_valid(before, manifest, b, a);
        } else {
            lemma_absorb_valid(before, manifest, a, b);
        }
    }
}

/// Merging the list of a node puts its subnets into one component.
proof fn lemma_merge_list_valid(before: Merging, manifest: Manifest, subnets: Seq<Seq<char>>)
    requires
        before.valid(manifest),
        forall|i: int, j: int|
            0 <= i < subnets.len() && 0 <= j < subnets.len() ==> linked(
                manifest,
                #[trigger] subnets[i],
                #[trigger] subnets[j],
            ),
    ensures
        before.merge_list(subnets).valid(manifest),
        before.merge_list(subnets).coarser(before),
        before.merge_list(subnets).joins(subnets),
    decreases subnets.len(),
{
    if subnets.len() > 1 {
        let init = subnets.drop_last();
        let middle = before.merge_list(init);
        let after = before.merge_list(subnets);
        lemma_merge_list_valid(before, manifest, init);
        assert(linked(manifest, subnets[0], subnets[subnets.len() - 1]));
        lemma_merge_valid(middle, manifest, subnets.first(), subnets.last());
        assert forall|i: int| 0 <= i < subnets.len() implies (after.leader)(#[trigger] subnets[i])
            == (after.leader)(subnets[0]) by {
            if i < init.len() {
                assert(init[i] == subnets[i] && init[0] == subnets[0]);
                assert((middle.leader)(init[i]) == (middle.leader)(init[0]));
            }
        }
    }
}

/// Merging node by node puts the subnets of each node into one component.
proof fn lemma_merge_nodes_valid(manifest: Manifest, k: int)
    requires
        0 <= k <= manifest.len(),
    ensures
        Merging::start(manifest).merge_nodes(manifest.take(k)).valid(manifest),
        forall|n: int|
            0 <= n < k ==> Merging::start(manifest).merge_nodes(manifest.take(k)).joins(
                (#[trigger] manifest[n]).1,
            ),
    decreases k,
{
    let start = Merging::start(manifest);
    lemma_start_valid(manifest);
    if k > 0 {
        let before = start.merge_nodes(manifest.take(k - 1));
        let after = start.merge_nodes(manifest.take(k));
        let subnets = manifest[k - 1].1;
        lemma_merge_nodes_valid(manifest, k - 1);
        assert(manifest.take(k).drop_last() =~= manifest.take(k - 1));
        assert forall|i: int, j: int|
            0 <= i < subnets.len() && 0 <= j < subnets.len() implies linked(
            manifest,
            #[trigger] subnets[i],
            #[trigger] subnets[j],
        ) by {
            assert(manifest[k - 1].1.contains(subnets[i]) && manifest[k - 1].1.contains(
                subnets[j],
            ));
        }
        lemma_merge_list_valid(before, manifest, subnets);
        assert forall|n: int| 0 <= n < k implies after.joins((#[trigger] manifest[n]).1) by {
            if n < k - 1 {
                let list = manifest[n].1;
                assert(before.joins(list));
                assert forall|i: int, j: int| 0 <= i < list.len() && 0 <= j < list.len() implies (
                after.leader)(#[trigger] list[i]) == (after.leader)(#[trigger] list[j]) by {
                    assert((before.leader)(list[i]) == (before.leader)(list[j]));
                }
            }
        }
    }
}

/// Once every node has been taken into account, subnets that reach each other
/// are in one component.
proof fn lemma_reachable_same_leader(manifest: Manifest, path: Seq<Seq<char>>)
    requires
        is_path(manifest, path),
    ensures
        ({
            let leader = Merging::start(manifest).merge_nodes(manifest).leader;
            leader(path.first()) == leader(path.last())
        }),
    decreases path.len(),
{
    let done = Merging::start(manifest).merge_nodes(manifest);
    if path.len() > 1 {
        let init = path.drop_last();
        let k = path.len() - 2;
        assert forall|i: int| 0 <= i < init.len() - 1 implies linked(
            manifest,
            #[trigger] init[i],
            init[i + 1],
        ) by {
            assert(linked(manifest, path[i], path[i + 1]));
        }
        lemma_reachable_same_leader(manifest, init);
        assert(linked(manifest, path[k], path[k + 1]));
        let n = choose|n: int|
            0 <= n < manifest.len() && (#[trigger] manifest[n]).1.contains(path[k])
                && manifest[n].1.contains(path[k + 1]);
        lemma_merge_nodes_valid(manifest, manifest.len() as int);
        assert(manifest.take(manifest.len() as int) =~= manifest);
        let list = manifest[n].1;
        assert(done.joins(list));
        let i = choose|i: int| 0 <= i < list.len() && list[i] == path[k];
        let j = choose|j: int| 0 <= j < list.len() && list[j] == path[k + 1];
        assert((done.leader)(list[i]) == (done.leader)(list[j]));
    }
}

/// In the end, two subnets have the same leader where they reach each other.
pub proof fn lemma_merged(manifest: Manifest)
    ensures
        Merging::start(manifest).merge_nodes(manifest).valid(manifest),
        forall|a: Seq<char>, b: Seq<char>|
            is_subnet(manifest, a) && is_subnet(manifest, b) ==> (#[trigger] reachable(
                manifest,
                a,
                b,
            ) <==> {
                let leader = Merging::start(manifest).merge_nodes(manifest).leader;
                leader(a) == leader(b)
            }),
{
    let done = Merging::start(manifest).merge_nodes(manifest);
    lemma_merge_nodes_valid(manifest, manifest.len() as int);
    assert(manifest.take(manifest.len() as int) =~= manifest);
    assert forall|a: Seq<char>, b: Seq<char>|
        is_subnet(manifest, a) && is_subnet(manifest, b) implies (#[trigger] reachable(
        manifest,
        a,
        b,
    ) <==> (done.leader)(a) == (done.leader)(b)) by {
        if reachable(manifest, a, b) {
            let path = choose|path: Seq<Seq<char>>| #[trigger]
                is_path(manifest, path) && path.first() == a && path.last() == b;
            lemma_reachable_same_leader(manifest, path);
        }
        if (done.leader)(a) == (done.leader)(b) {
            let l = (done.leader)(a);
            assert(reachable(manifest, a, l));
            assert(reachable(manifest, b, (done.leader)(b)));
            lemma_reachable_symmetric(manifest, b, l);
            lemma_reachable_transitive(manifest, a, l, b);
        }
    }
}

/// The network is connected exactly where at most one component is left.
pub proof fn lemma_connected_components(manifest: Manifest)
    ensures
        connected(manifest) <==> components(manifest).len() <= 1,
{
    let done = Merging::start(manifest).merge_nodes(manifest);
    let left = done.components;
    lemma_merged(manifest);
    if left.len() > 1 {
        let a = left[0].0;
        let b = left[1].0;
        lemma_position(left, 0);
        lemma_position(left, 1);
        assert(has_key(left, a) && has_key(left, b));
        assert(!reachable(manifest, a, b));
    } else {
        assert forall|a: Seq<char>, b: Seq<char>|
            is_subnet(manifest, a) && is_subnet(manifest, b) implies #[trigger] reachable(
            manifest,
            a,
            b,
        ) by {
            let x = (done.leader)(a);
            let y = (done.leader)(b);
            assert((done.leader)(x) == x && (done.leader)(y) == y);
            assert(has_key(left, x) && has_key(left, y));
            lemma_has_key(left, x);
            lemma_has_key(left, y);
        }
    }
}

/// A network of at most one subnet is connected.
pub proof fn lemma_few_subnets_connected(manifest: Manifest)
    requires
        subnet_order(manifest).len() <= 1,
    ensures
        connected(manifest),
{
    let order = subnet_order(manifest);
    lemma_subnet_order(manifest);
    assert forall|a: Seq<char>, b: Seq<char>|
        is_subnet(manifest, a) && is_subnet(manifest, b) implies #[trigger] reachable(
        manifest,
        a,
        b,
    ) by {
        assert(order.contains(a) && order.contains(b));
        lemma_reachable_refl(manifest, a);
    }
}

} // verus!
