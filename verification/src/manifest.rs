//! What a manifest says of its subnets.
//!
//! A manifest is modelled as the sequence of its nodes, each with the subnets
//! that it lists. Everything else the library knows follows from that.
use vstd::prelude::*;

use crate::decimal::decimal;
use crate::entries::{has_key, keys, lemma_has_key, position, value, with_value};
use crate::subnets::MetadataView;

verus! {

/// The nodes of a manifest in their order, each with the subnets that it lists.
pub type Manifest = Seq<(Seq<char>, Seq<Seq<char>>)>;

/// The subnets that one node lists, each paired with the node.
pub open spec fn mentions_by(node: Seq<char>, subnets: Seq<Seq<char>>) -> Seq<
    (Seq<char>, Seq<char>),
> {
    subnets.map_values(|s: Seq<char>| (s, node))
}

/// Every mention of a subnet, paired with the node that makes it, in the order
/// in which the manifest makes them.
pub open spec fn mentions(manifest: Manifest) -> Seq<(Seq<char>, Seq<char>)>
    decreases manifest.len(),
{
    if manifest.len() == 0 {
        Seq::empty()
    } else {
        mentions(manifest.drop_last()) + mentions_by(manifest.last().0, manifest.last().1)
    }
}

/// The items of a sequence without repetitions, each where it occurs first.
pub open spec fn first_occurrences<A>(items: Seq<A>) -> Seq<A>
    decreases items.len(),
{
    if items.len() == 0 {
        Seq::empty()
    } else {
        let earlier = first_occurrences(items.drop_last());
        if earlier.contains(items.last()) {
            earlier
        } else {
            earlier.push(items.last())
        }
    }
}

/// The nodes that mention a subnet, one for each mention.
pub open spec fn nodes_mentioning(
    mentioned: Seq<(Seq<char>, Seq<char>)>,
    subnet: Seq<char>,
) -> Seq<Seq<char>> {
    mentioned.filter(|m: (Seq<char>, Seq<char>)| m.0 == subnet).map_values(
        |m: (Seq<char>, Seq<char>)| m.1,
    )
}

/// The mentioned subnets in the order of their first mention, each with the
/// nodes that mention it.
pub open spec fn grouped(mentioned: Seq<(Seq<char>, Seq<char>)>) -> Seq<
    (Seq<char>, Seq<Seq<char>>),
> {
    first_occurrences(keys(mentioned)).map_values(
        |s: Seq<char>| (s, nodes_mentioning(mentioned, s)),
    )
}

/// The subnets of a manifest, in the order of their first mention.
pub open spec fn subnet_order(manifest: Manifest) -> Seq<Seq<char>> {
    first_occurrences(keys(mentions(manifest)))
}

/// The subnets of a manifest in their order, each with its nodes.
pub open spec fn nodes_by_subnet(manifest: Manifest) -> Seq<(Seq<char>, Seq<Seq<char>>)> {
    grouped(mentions(manifest))
}

/// Whether some node lists the subnet.
pub open spec fn is_subnet(manifest: Manifest, subnet: Seq<char>) -> bool {
    exists|n: int| 0 <= n < manifest.len() && (#[trigger] manifest[n]).1.contains(subnet)
}

/// Subnet index offset: user-defined subnets start at 172.21.x.x to avoid
/// conflicting with the base Docker network at 172.19.x.x / 172.20.x.x.
pub const SUBNET_INDEX_BASE: usize = 21;

/// The index of a subnet: its position in the order of first mention, counted
/// from [`SUBNET_INDEX_BASE`].
pub open spec fn subnet_index(manifest: Manifest, subnet: Seq<char>) -> nat {
    (SUBNET_INDEX_BASE + subnet_order(manifest).index_of(subnet)) as nat
}

/// The block of addresses whose second octet is the index.
pub open spec fn cidr_block(index: nat) -> Seq<char> {
    "172."@ + decimal(index) + ".0.0/16"@
}

/// Subnets with the metadata that their order gives them.
pub open spec fn numbered(order: Seq<Seq<char>>) -> Seq<(Seq<char>, MetadataView)> {
    order.map(
        |i: int, s: Seq<char>|
            (
                s,
                MetadataView {
                    name: s,
                    index: (SUBNET_INDEX_BASE + i) as nat,
                    cidr: cidr_block((SUBNET_INDEX_BASE + i) as nat),
                },
            ),
    )
}

/// The subnets of a manifest in their order, each with its metadata.
pub open spec fn subnet_metadata(manifest: Manifest) -> Seq<(Seq<char>, MetadataView)> {
    numbered(subnet_order(manifest))
}

/// The subnets of a manifest in their order, each with its block.
pub open spec fn cidr_blocks(manifest: Manifest) -> Seq<(Seq<char>, Seq<char>)> {
    subnet_order(manifest).map(
        |i: int, s: Seq<char>| (s, cidr_block((SUBNET_INDEX_BASE + i) as nat)),
    )
}

/// The subnets that a node lists, in the order listed; none where the manifest
/// has no such node.
pub open spec fn subnets_listed(manifest: Manifest, node: Seq<char>) -> Seq<Seq<char>> {
    if has_key(manifest, node) {
        value(manifest, node)
    } else {
        Seq::empty()
    }
}

/// The subnets that a node lists, each with its index.
pub open spec fn indexes_listed(manifest: Manifest, node: Seq<char>) -> Seq<(Seq<char>, nat)> {
    subnets_listed(manifest, node).map_values(|s: Seq<char>| (s, subnet_index(manifest, s)))
}

/// The subnets that both nodes list, in the order in which the first lists them.
pub open spec fn subnets_shared(
    manifest: Manifest,
    node_a: Seq<char>,
    node_b: Seq<char>,
) -> Seq<Seq<char>> {
    subnets_listed(manifest, node_a).filter(
        |s: Seq<char>| subnets_listed(manifest, node_b).contains(s),
    )
}

/// The first occurrences are distinct and are all the items that occur.
pub proof fn lemma_first_occurrences<A>(items: Seq<A>)
    ensures
        first_occurrences(items).no_duplicates(),
        forall|a: A| first_occurrences(items).contains(a) <==> items.contains(a),
    decreases items.len(),
{
    if items.len() > 0 {
        let init = items.drop_last();
        let earlier = first_occurrences(init);
        lemma_first_occurrences(init);
        let all = first_occurrences(items);
        assert forall|a: A| items.contains(a) implies all.contains(a) by {
            let i = choose|i: int| 0 <= i < items.len() && items[i] == a;
            if i < init.len() {
                assert(init[i] == a);
                assert(init.contains(a));
                assert(earlier.contains(a));
                let j = choose|j: int| 0 <= j < earlier.len() && earlier[j] == a;
                assert(all[j] == a);
            } else if !earlier.contains(a) {
                assert(all.last() == a);
            }
        }
        assert forall|a: A| all.contains(a) implies items.contains(a) by {
            if a != items.last() {
                let j = choose|j: int| 0 <= j < all.len() && all[j] == a;
                assert(earlier[j] == a);
                assert(init.contains(a));
                let i = choose|i: int| 0 <= i < init.len() && init[i] == a;
                assert(items[i] == a);
            } else {
                assert(items[items.len() - 1] == a);
            }
        }
    }
}

/// The keys of a grouping are the mentioned subnets, each once.
pub proof fn lemma_grouped_keys(mentioned: Seq<(Seq<char>, Seq<char>)>)
    ensures
        keys(grouped(mentioned)) == first_occurrences(keys(mentioned)),
        keys(grouped(mentioned)).no_duplicates(),
{
    lemma_first_occurrences(keys(mentioned));
    assert(keys(grouped(mentioned)) =~= first_occurrences(keys(mentioned)));
}

/// One more mention adds its node to the end of the subnet's list, and the
/// subnet to the end of the subnets where it is new.
pub proof fn lemma_grouped_push(
    mentioned: Seq<(Seq<char>, Seq<char>)>,
    subnet: Seq<char>,
    node: Seq<char>,
)
    ensures
        grouped(mentioned.push((subnet, node))) == with_value(
            grouped(mentioned),
            subnet,
            (if has_key(grouped(mentioned), subnet) {
                value(grouped(mentioned), subnet)
            } else {
                Seq::empty()
            }).push(node),
        ),
{
    let after = mentioned.push((subnet, node));
    let before_groups = grouped(mentioned);
    let order = first_occurrences(keys(mentioned));
    lemma_grouped_keys(mentioned);
    lemma_grouped_keys(after);
    lemma_first_occurrences(keys(mentioned));
    assert(keys(after).drop_last() =~= keys(mentioned));
    assert(after.drop_last() =~= mentioned);
    assert forall|s: Seq<char>| #[trigger]
        nodes_mentioning(after, s) == (if s == subnet {
            nodes_mentioning(mentioned, s).push(node)
        } else {
            nodes_mentioning(mentioned, s)
        }) by {
        reveal(Seq::filter);
        assert(nodes_mentioning(after, s) =~= (if s == subnet {
            nodes_mentioning(mentioned, s).push(node)
        } else {
            nodes_mentioning(mentioned, s)
        }));
    }
    if has_key(before_groups, subnet) {
        let p = position(before_groups, subnet);
        assert(order[p] == subnet);
        assert(before_groups[p].1 == nodes_mentioning(mentioned, subnet));
    } else {
        assert(nodes_mentioning(mentioned, subnet) =~= Seq::empty()) by {
            lemma_unmentioned(mentioned, subnet);
        }
    }
    assert(grouped(after) =~= with_value(
        before_groups,
        subnet,
        nodes_mentioning(mentioned, subnet).push(node),
    ));
}

/// A subnet that is not mentioned has no nodes.
proof fn lemma_unmentioned(mentioned: Seq<(Seq<char>, Seq<char>)>, subnet: Seq<char>)
    requires
        !keys(mentioned).contains(subnet),
    ensures
        nodes_mentioning(mentioned, subnet).len() == 0,
    decreases mentioned.len(),
{
    reveal(Seq::filter);
    if mentioned.len() > 0 {
        let init = mentioned.drop_last();
        assert forall|i: int| 0 <= i < keys(init).len() implies keys(init)[i] != subnet by {
            assert(keys(mentioned)[i] == keys(init)[i]);
        }
        lemma_unmentioned(init, subnet);
        assert(keys(mentioned)[mentioned.len() - 1] == mentioned.last().0);
    }
}

/// Whether a node of this name lists the subnet.
pub open spec fn attached(manifest: Manifest, subnet: Seq<char>, node: Seq<char>) -> bool {
    exists|n: int|
        0 <= n < manifest.len() && (#[trigger] manifest[n]).0 == node && manifest[n].1.contains(
            subnet,
        )
}

/// The mentions are the pairs of a subnet and a node that lists it.
pub proof fn lemma_mentions(manifest: Manifest, subnet: Seq<char>, node: Seq<char>)
    ensures
        mentions(manifest).contains((subnet, node)) <==> attached(manifest, subnet, node),
    decreases manifest.len(),
{
    if manifest.len() > 0 {
        let init = manifest.drop_last();
        let last = manifest.len() - 1;
        let by_last = mentions_by(manifest[last].0, manifest[last].1);
        let before = mentions(init);
        lemma_mentions(init, subnet, node);
        if mentions(manifest).contains((subnet, node)) {
            let i = choose|i: int|
                0 <= i < mentions(manifest).len() && mentions(manifest)[i] == (subnet, node);
            if i < before.len() {
                assert(before[i] == (subnet, node));
                let n = choose|n: int|
                    0 <= n < init.len() && (#[trigger] init[n]).0 == node && init[n].1.contains(
                        subnet,
                    );
                assert(manifest[n] == init[n]);
            } else {
                assert(by_last[i - before.len()] == (subnet, node));
                assert(manifest[last].1[i - before.len()] == subnet);
            }
        }
        if attached(manifest, subnet, node) {
            let n = choose|n: int|
                0 <= n < manifest.len() && (#[trigger] manifest[n]).0 == node
                    && manifest[n].1.contains(subnet);
            if n < last {
                assert(init[n] == manifest[n]);
                let i = choose|i: int| 0 <= i < before.len() && before[i] == (subnet, node);
                assert(mentions(manifest)[i] == (subnet, node));
            } else {
                let i = choose|i: int| 0 <= i < manifest[n].1.len() && manifest[n].1[i] == subnet;
                assert(by_last[i] == (subnet, node));
                assert(mentions(manifest)[before.len() + i] == (subnet, node));
            }
        }
    }
}

/// The subnets in their order are the subnets that some node lists, each once.
pub proof fn lemma_subnet_order(manifest: Manifest)
    ensures
        subnet_order(manifest).no_duplicates(),
        forall|s: Seq<char>| #[trigger]
            subnet_order(manifest).contains(s) <==> is_subnet(manifest, s),
{
    let mentioned = mentions(manifest);
    lemma_first_occurrences(keys(mentioned));
    assert forall|s: Seq<char>| #[trigger] subnet_order(manifest).contains(s) implies is_subnet(
        manifest,
        s,
    ) by {
        assert(keys(mentioned).contains(s));
        let i = choose|i: int| 0 <= i < keys(mentioned).len() && keys(mentioned)[i] == s;
        assert(mentioned[i] == (s, mentioned[i].1));
        lemma_mentions(manifest, s, mentioned[i].1);
    }
    assert forall|s: Seq<char>| is_subnet(manifest, s) implies #[trigger] subnet_order(
        manifest,
    ).contains(s) by {
        let n = choose|n: int|
            0 <= n < manifest.len() && (#[trigger] manifest[n]).1.contains(s);
        let node = manifest[n].0;
        lemma_mentions(manifest, s, node);
        let i = choose|i: int| 0 <= i < mentioned.len() && mentioned[i] == (s, node);
        assert(keys(mentioned)[i] == s);
        assert(keys(mentioned).contains(s));
    }
}

/// The list of a subnet holds the nodes that are attached to it.
pub proof fn lemma_nodes_by_subnet(manifest: Manifest)
    ensures
        keys(nodes_by_subnet(manifest)) == subnet_order(manifest),
        forall|s: Seq<char>, node: Seq<char>|
            is_subnet(manifest, s) ==> (#[trigger] value(nodes_by_subnet(manifest), s).contains(
                node,
            ) <==> attached(manifest, s, node)),
{
    let mentioned = mentions(manifest);
    let groups = nodes_by_subnet(manifest);
    lemma_grouped_keys(mentioned);
    lemma_subnet_order(manifest);
    assert forall|s: Seq<char>, node: Seq<char>| is_subnet(manifest, s) implies (
    #[trigger] value(groups, s).contains(node) <==> attached(manifest, s, node)) by {
        assert(subnet_order(manifest).contains(s));
        lemma_has_key(groups, s);
        assert(subnet_order(manifest)[position(groups, s)] == s);
        assert(value(groups, s) == nodes_mentioning(mentioned, s));
        lemma_nodes_mentioning(mentioned, s, node);
        lemma_mentions(manifest, s, node);
    }
}

/// The nodes that mention a subnet are those whose mention of it is there.
proof fn lemma_nodes_mentioning(
    mentioned: Seq<(Seq<char>, Seq<char>)>,
    subnet: Seq<char>,
    node: Seq<char>,
)
    ensures
        nodes_mentioning(mentioned, subnet).contains(node) <==> mentioned.contains((subnet, node)),
    decreases mentioned.len(),
{
    reveal(Seq::filter);
    if mentioned.len() > 0 {
        let init = mentioned.drop_last();
        let before = nodes_mentioning(init, subnet);
        let after = nodes_mentioning(mentioned, subnet);
        lemma_nodes_mentioning(init, subnet, node);
        assert(mentioned =~= init.push(mentioned.last()));
        assert(after =~= if mentioned.last().0 == subnet {
            before.push(mentioned.last().1)
        } else {
            before
        });
        broadcast use vstd::seq_lib::group_seq_properties;
    }
}

} // verus!
