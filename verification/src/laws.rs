//! What holds of the subnets of every manifest.
use vstd::arithmetic::div_mod::lemma_div_denominator;
use vstd::arithmetic::power::{lemma_pow1, lemma_pow_positive, pow};
use vstd::prelude::*;

use crate::decimal::{decimal, digit, lemma_decimal_injective};
use crate::entries::{
    has_key, keys, lemma_has_key, lemma_position, lemma_swap_removed, position, swap_removed, value,
    with_value,
};
use crate::index_map::{borrowed_lists, borrowed_metadata, owned_metadata, owned_texts};
use crate::manifest::{
    attached, cidr_block, cidr_blocks, first_occurrences, indexes_listed, is_subnet,
    lemma_first_occurrences, lemma_mentions, lemma_nodes_by_subnet, lemma_subnet_order, mentions,
    mentions_by, nodes_by_subnet, nodes_mentioning,
    subnet_index, subnet_metadata, subnet_order, subnets_listed, subnets_shared, Manifest,
    SUBNET_INDEX_BASE,
};
use crate::node::names;
use crate::subnets::{index_pairs, SubnetMetadata};
use crate::topology::{
    components, connected, is_path, lemma_connected_components, lemma_linked_reachable,
    lemma_merged, lemma_reachable_refl, lemma_reachable_transitive, linked, reachable, Merging,
};

verus! {

/// The components that are left are the connected parts of the network: each
/// stands under one of its subnets, every subnet reaches exactly one of them,
/// and a component has the nodes on the subnets that reach it.
pub proof fn law_components_partition(manifest: Manifest)
    ensures
        keys(components(manifest)).no_duplicates(),
        forall|k: Seq<char>| #[trigger]
            has_key(components(manifest), k) ==> is_subnet(manifest, k),
        forall|s: Seq<char>| #[trigger]
            is_subnet(manifest, s) ==> exists|k: Seq<char>| #[trigger]
                has_key(components(manifest), k) && reachable(manifest, s, k),
        forall|a: Seq<char>, b: Seq<char>|
            has_key(components(manifest), a) && has_key(components(manifest), b)
                && #[trigger] reachable(manifest, a, b) ==> a == b,
        forall|k: Seq<char>, node: Seq<char>|
            has_key(components(manifest), k) ==> (#[trigger] value(
                components(manifest),
                k,
            ).contains(node) <==> exists|s: Seq<char>| #[trigger]
                attached(manifest, s, node) && reachable(manifest, s, k)),
{
    let done = Merging::start(manifest).merge_nodes(manifest);
    let left = components(manifest);
    lemma_merged(manifest);
    assert forall|s: Seq<char>| #[trigger] is_subnet(manifest, s) implies exists|k: Seq<char>|
     #[trigger]
        has_key(left, k) && reachable(manifest, s, k) by {
        let k = (done.leader)(s);
        assert((done.leader)(k) == k);
        assert(has_key(left, k) && reachable(manifest, s, k));
    }
    assert forall|k: Seq<char>, node: Seq<char>| has_key(left, k) implies (#[trigger] value(
        left,
        k,
    ).contains(node) <==> exists|s: Seq<char>| #[trigger]
        attached(manifest, s, node) && reachable(manifest, s, k)) by {
        assert(value(left, k).contains(node) <==> done.in_component(manifest, k, node));
        if done.in_component(manifest, k, node) {
            let s = choose|s: Seq<char>|
                #![trigger (done.leader)(s)]
                (done.leader)(s) == k && attached(manifest, s, node);
            lemma_attached_is_subnet(manifest, s, node);
            assert(reachable(manifest, s, (done.leader)(s)));
        }
        if exists|s: Seq<char>| #[trigger]
            attached(manifest, s, node) && reachable(manifest, s, k) {
            let s = choose|s: Seq<char>| #[trigger]
                attached(manifest, s, node) && reachable(manifest, s, k);
            lemma_attached_is_subnet(manifest, s, node);
            assert((done.leader)(s) == (done.leader)(k));
        }
    }
}

/// What a node is attached to is a subnet.
proof fn lemma_attached_is_subnet(manifest: Manifest, subnet: Seq<char>, node: Seq<char>)
    requires
        attached(manifest, subnet, node),
    ensures
        is_subnet(manifest, subnet),
{
    let n = choose|n: int|
        0 <= n < manifest.len() && (#[trigger] manifest[n]).0 == node && manifest[n].1.contains(
            subnet,
        );
    assert(manifest[n].1.contains(subnet));
}

/// Whether a network is connected depends on nothing but which subnets share a
/// node: not on the order of the nodes nor on that of their subnets, nor on how
/// many nodes bridge the same subnets.
pub proof fn law_connected_by_links(a: Manifest, b: Manifest)
    requires
        forall|s: Seq<char>, t: Seq<char>| #[trigger] linked(a, s, t) <==> linked(b, s, t),
    ensures
        connected(a) <==> connected(b),
{
    if connected(a) {
        lemma_connected_by_links(a, b);
    }
    if connected(b) {
        lemma_connected_by_links(b, a);
    }
}

/// One direction of [`law_connected_by_links`].
proof fn lemma_connected_by_links(a: Manifest, b: Manifest)
    requires
        forall|s: Seq<char>, t: Seq<char>| linked(a, s, t) <==> linked(b, s, t),
        connected(a),
    ensures
        connected(b),
{
    assert forall|s: Seq<char>, t: Seq<char>| is_subnet(b, s) && is_subnet(b, t) implies
     #[trigger] reachable(b, s, t) by {
        lemma_subnet_linked(b, s);
        lemma_subnet_linked(b, t);
        assert(linked(a, s, s) && linked(a, t, t));
        lemma_subnet_linked(a, s);
        lemma_subnet_linked(a, t);
        assert(reachable(a, s, t));
        let path = choose|path: Seq<Seq<char>>| #[trigger]
            is_path(a, path) && path.first() == s && path.last() == t;
        assert(is_path(b, path));
    }
}

/// The subnets are what is linked with itself.
proof fn lemma_subnet_linked(manifest: Manifest, s: Seq<char>)
    ensures
        is_subnet(manifest, s) <==> linked(manifest, s, s),
{
}

/// A network with a node on every subnet is connected.
pub proof fn law_hub_connects(manifest: Manifest, hub: int)
    requires
        0 <= hub < manifest.len(),
        forall|s: Seq<char>| #[trigger]
            is_subnet(manifest, s) ==> manifest[hub].1.contains(s),
    ensures
        connected(manifest),
{
    assert forall|a: Seq<char>, b: Seq<char>|
        is_subnet(manifest, a) && is_subnet(manifest, b) implies #[trigger] reachable(
        manifest,
        a,
        b,
    ) by {
        assert(manifest[hub].1.contains(a) && manifest[hub].1.contains(b));
        lemma_linked_reachable(manifest, a, b);
    }
}

/// A network of several subnets in which no node bridges one of them to another
/// is disconnected.
pub proof fn law_unbridged_disconnects(
    manifest: Manifest,
    unbridged: Seq<char>,
    other: Seq<char>,
)
    requires
        is_subnet(manifest, unbridged),
        is_subnet(manifest, other),
        unbridged != other,
        forall|s: Seq<char>| #[trigger] linked(manifest, unbridged, s) ==> s == unbridged,
    ensures
        !connected(manifest),
{
    if reachable(manifest, unbridged, other) {
        let path = choose|path: Seq<Seq<char>>| #[trigger]
            is_path(manifest, path) && path.first() == unbridged && path.last() == other;
        lemma_unbridged_path(manifest, unbridged, path, path.len() - 1);
    }
}

/// No path leads away from a subnet that is linked with no other.
proof fn lemma_unbridged_path(
    manifest: Manifest,
    unbridged: Seq<char>,
    path: Seq<Seq<char>>,
    i: int,
)
    requires
        is_path(manifest, path),
        path.first() == unbridged,
        0 <= i < path.len(),
        forall|s: Seq<char>| #[trigger] linked(manifest, unbridged, s) ==> s == unbridged,
    ensures
        path[i] == unbridged,
    decreases i,
{
    if i > 0 {
        lemma_unbridged_path(manifest, unbridged, path, i - 1);
        assert(linked(manifest, path[i - 1], path[i - 1 + 1]));
    }
}

/// The indexes of the subnets are the numbers from the base on, each given to
/// one subnet: no two subnets have the same.
pub proof fn law_indexes_unique(manifest: Manifest)
    ensures
        forall|s: Seq<char>| #[trigger]
            is_subnet(manifest, s) ==> SUBNET_INDEX_BASE <= subnet_index(manifest, s)
                < SUBNET_INDEX_BASE + subnet_order(manifest).len(),
        forall|s: Seq<char>, t: Seq<char>|
            is_subnet(manifest, s) && is_subnet(manifest, t) && #[trigger] subnet_index(manifest, s)
                == #[trigger] subnet_index(manifest, t) ==> s == t,
        forall|i: int|
            0 <= i < subnet_order(manifest).len() ==> subnet_index(
                manifest,
                #[trigger] subnet_order(manifest)[i],
            ) == SUBNET_INDEX_BASE + i,
{
    let order = subnet_order(manifest);
    lemma_subnet_order(manifest);
    assert forall|s: Seq<char>| #[trigger] is_subnet(manifest, s) implies 0 <= order.index_of(s)
        < order.len() && order[order.index_of(s)] == s by {
        assert(order.contains(s));
    }
    assert forall|i: int| 0 <= i < order.len() implies subnet_index(manifest, #[trigger] order[i])
        == SUBNET_INDEX_BASE + i by {
        assert(order.contains(order[i]));
    }
}

/// A later node does not change the index of a subnet that an earlier one lists.
pub proof fn law_indexes_stable(
    manifest: Manifest,
    node: (Seq<char>, Seq<Seq<char>>),
    subnet: Seq<char>,
)
    requires
        is_subnet(manifest, subnet),
    ensures
        subnet_index(manifest.push(node), subnet) == subnet_index(manifest, subnet),
{
    let order = subnet_order(manifest);
    let longer = manifest.push(node);
    let before = keys(mentions(manifest));
    let more = node.1;
    assert(longer.drop_last() =~= manifest);
    assert(keys(mentions(longer)) =~= before + more);
    lemma_first_occurrences_prefix(before, more);
    law_indexes_unique(manifest);
    law_indexes_unique(longer);
    lemma_subnet_order(manifest);
    assert(order.contains(subnet));
    let i = order.index_of(subnet);
    assert(subnet_order(longer)[i] == order[i]);
}

/// First occurrences keep their places when items are added.
proof fn lemma_first_occurrences_prefix<A>(items: Seq<A>, more: Seq<A>)
    ensures
        first_occurrences(items).is_prefix_of(first_occurrences(items + more)),
    decreases more.len(),
{
    if more.len() > 0 {
        lemma_first_occurrences_prefix(items, more.drop_last());
        assert((items + more).drop_last() =~= items + more.drop_last());
    } else {
        assert(items + more =~= items);
    }
}

/// Different indexes give different blocks.
pub proof fn law_blocks_of_indexes_unique(i: nat, j: nat)
    requires
        cidr_block(i) == cidr_block(j),
    ensures
        i == j,
{
    let head = "172."@;
    let tail = ".0.0/16"@;
    assert(cidr_block(i).len() == head.len() + decimal(i).len() + tail.len());
    assert(cidr_block(j).len() == head.len() + decimal(j).len() + tail.len());
    assert forall|k: int| 0 <= k < decimal(i).len() implies decimal(i)[k] == decimal(j)[k] by {
        assert(cidr_block(i)[head.len() + k] == decimal(i)[k]);
        assert(cidr_block(j)[head.len() + k] == decimal(j)[k]);
    }
    assert(decimal(i) =~= decimal(j));
    lemma_decimal_injective(i, j);
}

/// Each subnet has a block of its own, which carries the subnet's index and is
/// none of those of the base network.
pub proof fn law_blocks_unique(manifest: Manifest)
    ensures
        keys(cidr_blocks(manifest)) == subnet_order(manifest),
        forall|s: Seq<char>|
            is_subnet(manifest, s) ==> #[trigger] value(cidr_blocks(manifest), s) == cidr_block(
                subnet_index(manifest, s),
            ),
        forall|s: Seq<char>, t: Seq<char>|
            is_subnet(manifest, s) && is_subnet(manifest, t) && #[trigger] value(
                cidr_blocks(manifest),
                s,
            ) == #[trigger] value(cidr_blocks(manifest), t) ==> s == t,
        forall|s: Seq<char>, index: nat|
            is_subnet(manifest, s) && index < SUBNET_INDEX_BASE ==> #[trigger] value(
                cidr_blocks(manifest),
                s,
            ) != #[trigger] cidr_block(index),
{
    let blocks = cidr_blocks(manifest);
    lemma_subnet_order(manifest);
    law_indexes_unique(manifest);
    assert(keys(blocks) =~= subnet_order(manifest));
    assert forall|s: Seq<char>| is_subnet(manifest, s) implies #[trigger] value(blocks, s)
        == cidr_block(subnet_index(manifest, s)) by {
        assert(subnet_order(manifest).contains(s));
        lemma_has_key(blocks, s);
    }
    assert forall|s: Seq<char>, t: Seq<char>|
        is_subnet(manifest, s) && is_subnet(manifest, t) && #[trigger] value(blocks, s)
            == #[trigger] value(blocks, t) implies s == t by {
        law_blocks_of_indexes_unique(subnet_index(manifest, s), subnet_index(manifest, t));
    }
    assert forall|s: Seq<char>, index: nat|
        is_subnet(manifest, s) && index < SUBNET_INDEX_BASE implies #[trigger] value(blocks, s)
        != #[trigger] cidr_block(index) by {
        if value(blocks, s) == cidr_block(index) {
            law_blocks_of_indexes_unique(subnet_index(manifest, s), index);
        }
    }
}

/// The metadata of a subnet gives its name, its index and its block.
pub proof fn law_metadata(manifest: Manifest, subnet: Seq<char>)
    requires
        is_subnet(manifest, subnet),
    ensures
        has_key(subnet_metadata(manifest), subnet),
        value(subnet_metadata(manifest), subnet).name == subnet,
        value(subnet_metadata(manifest), subnet).index == subnet_index(manifest, subnet),
        value(subnet_metadata(manifest), subnet).cidr == value(cidr_blocks(manifest), subnet),
{
    let entries = subnet_metadata(manifest);
    lemma_subnet_order(manifest);
    law_blocks_unique(manifest);
    assert(keys(entries) =~= subnet_order(manifest));
    assert(subnet_order(manifest).contains(subnet));
    lemma_has_key(entries, subnet);
}

/// A subnet has the nodes that list it, and a node lists the subnets that have
/// it.
pub proof fn law_nodes_and_subnets_agree(manifest: Manifest, node: Seq<char>, subnet: Seq<char>)
    requires
        keys(manifest).no_duplicates(),
    ensures
        subnets_listed(manifest, node).contains(subnet) <==> has_key(
            nodes_by_subnet(manifest),
            subnet,
        ) && value(nodes_by_subnet(manifest), subnet).contains(node),
{
    lemma_nodes_by_subnet(manifest);
    lemma_subnet_order(manifest);
    if subnets_listed(manifest, node).contains(subnet) {
        lemma_has_key(manifest, node);
        let n = position(manifest, node);
        assert(manifest[n].0 == node && manifest[n].1.contains(subnet));
        assert(is_subnet(manifest, subnet));
        assert(subnet_order(manifest).contains(subnet));
        assert(attached(manifest, subnet, node));
        assert(value(nodes_by_subnet(manifest), subnet).contains(node));
    }
    if has_key(nodes_by_subnet(manifest), subnet) && value(
        nodes_by_subnet(manifest),
        subnet,
    ).contains(node) {
        assert(subnet_order(manifest).contains(subnet));
        let n = choose|n: int|
            0 <= n < manifest.len() && (#[trigger] manifest[n]).0 == node
                && manifest[n].1.contains(subnet);
        lemma_position(manifest, n);
    }
}

/// The indexes of a node are those of the subnets that it lists, in the order
/// listed.
pub proof fn law_indexes_follow_list(manifest: Manifest, node: Seq<char>)
    ensures
        keys(indexes_listed(manifest, node)) == subnets_listed(manifest, node),
{
    assert(keys(indexes_listed(manifest, node)) =~= subnets_listed(manifest, node));
}

/// Two nodes share the subnets that both list, whichever is asked first.
pub proof fn law_shared_symmetric(
    manifest: Manifest,
    node_a: Seq<char>,
    node_b: Seq<char>,
    subnet: Seq<char>,
)
    ensures
        subnets_shared(manifest, node_a, node_b).contains(subnet) <==> subnets_listed(
            manifest,
            node_a,
        ).contains(subnet) && subnets_listed(manifest, node_b).contains(subnet),
        subnets_shared(manifest, node_a, node_b).contains(subnet) <==> subnets_shared(
            manifest,
            node_b,
            node_a,
        ).contains(subnet),
{
    lemma_filter_contains(
        subnets_listed(manifest, node_a),
        |s: Seq<char>| subnets_listed(manifest, node_b).contains(s),
        subnet,
    );
    lemma_filter_contains(
        subnets_listed(manifest, node_b),
        |s: Seq<char>| subnets_listed(manifest, node_a).contains(s),
        subnet,
    );
}

/// What is left by a filter is what the filter lets through.
proof fn lemma_filter_contains<A>(items: Seq<A>, pred: spec_fn(A) -> bool, a: A)
    ensures
        items.filter(pred).contains(a) <==> items.contains(a) && pred(a),
    decreases items.len(),
{
    reveal(Seq::filter);
    if items.len() > 0 {
        let init = items.drop_last();
        lemma_filter_contains(init, pred, a);
        assert(items =~= init.push(items.last()));
        broadcast use vstd::seq_lib::group_seq_properties;
    }
}

/// Nodes that list the same subnets share all of them, in the order listed; so
/// does a node with itself.
pub proof fn law_shared_same_list(manifest: Manifest, node_a: Seq<char>, node_b: Seq<char>)
    requires
        subnets_listed(manifest, node_a) == subnets_listed(manifest, node_b),
    ensures
        subnets_shared(manifest, node_a, node_b) == subnets_listed(manifest, node_a),
        subnets_shared(manifest, node_b, node_a) == subnets_listed(manifest, node_a),
{
    lemma_filter_all(
        subnets_listed(manifest, node_a),
        |s: Seq<char>| subnets_listed(manifest, node_b).contains(s),
    );
    lemma_filter_all(
        subnets_listed(manifest, node_b),
        |s: Seq<char>| subnets_listed(manifest, node_a).contains(s),
    );
}

/// A filter that lets every item through changes nothing.
proof fn lemma_filter_all<A>(items: Seq<A>, pred: spec_fn(A) -> bool)
    requires
        forall|i: int| 0 <= i < items.len() ==> pred(#[trigger] items[i]),
    ensures
        items.filter(pred) == items,
    decreases items.len(),
{
    reveal(Seq::filter);
    if items.len() > 0 {
        lemma_filter_all(items.drop_last(), pred);
        assert(items =~= items.drop_last().push(items.last()));
    }
}

/// Decimal notation is positional: each digit counts the power of ten of its
/// place, the digits suffice for the number, and none of them is a leading zero.
pub proof fn law_decimal_positional(n: nat)
    ensures
        decimal(n).len() >= 1,
        n < pow(10, decimal(n).len()),
        decimal(n).len() > 1 ==> pow(10, (decimal(n).len() - 1) as nat) <= n,
        forall|k: int|
            0 <= k < decimal(n).len() ==> (#[trigger] decimal(n)[k]) as int == 48 + (n as int / pow(
                10,
                (decimal(n).len() - 1 - k) as nat,
            )) % 10,
    decreases n,
{
    let digits = decimal(n);
    reveal(pow);
    assert(pow(10, 0) == 1 && pow(10, 1) == 10) by {
        lemma_pow1(10);
    }
    if n >= 10 {
        let m = n / 10;
        let shorter = decimal(m);
        law_decimal_positional(m);
        assert(pow(10, digits.len()) == 10 * pow(10, shorter.len()));
        assert(shorter.len() > 1 ==> pow(10, shorter.len()) == 10 * pow(
            10,
            (shorter.len() - 1) as nat,
        ));
        assert forall|k: int| 0 <= k < digits.len() implies (#[trigger] digits[k]) as int == 48 + (
        n as int / pow(10, (digits.len() - 1 - k) as nat)) % 10 by {
            if k < shorter.len() {
                let e = (shorter.len() - 1 - k) as nat;
                assert(digits[k] == shorter[k]);
                lemma_pow_positive(10, e);
                lemma_div_denominator(n as int, 10, pow(10, e));
                assert(pow(10, (e + 1) as nat) == 10 * pow(10, e));
            }
        }
    } else {
        assert(digits =~= seq![digit(n)]);
        assert(n as int / pow(10, 0) == n);
    }
}

/// The block of a subnet reads `172.`, the index in decimal digits, `.0.0/16`:
/// the index is the second octet of every address in the block.
pub proof fn law_block_text(index: nat) -> (digits: Seq<char>)
    ensures
        cidr_block(index) == seq!['1', '7', '2', '.'] + digits + seq![
            '.',
            '0',
            '.',
            '0',
            '/',
            '1',
            '6',
        ],
        digits.len() >= 1,
        index < pow(10, digits.len()),
        digits.len() > 1 ==> pow(10, (digits.len() - 1) as nat) <= index,
        forall|k: int|
            0 <= k < digits.len() ==> (#[trigger] digits[k]) as int == 48 + (index as int / pow(
                10,
                (digits.len() - 1 - k) as nat,
            )) % 10,
{
    reveal_strlit("172.");
    reveal_strlit(".0.0/16");
    law_decimal_positional(index);
    assert("172."@ =~= seq!['1', '7', '2', '.']);
    assert(".0.0/16"@ =~= seq!['.', '0', '.', '0', '/', '1', '6']);
    decimal(index)
}

/// What a node lists is found under its name, as it stands in the manifest.
pub proof fn law_list_of_node(manifest: Manifest, n: int)
    requires
        forall|i: int, j: int|
            0 <= i < j < manifest.len() ==> (#[trigger] manifest[i]).0
                != (#[trigger] manifest[j]).0,
        0 <= n < manifest.len(),
    ensures
        subnets_listed(manifest, manifest[n].0).len() == manifest[n].1.len(),
        forall|i: int|
            0 <= i < manifest[n].1.len() ==> #[trigger] subnets_listed(manifest, manifest[n].0)[i]
                == manifest[n].1[i],
{
    lemma_distinct_keys(manifest);
    lemma_position(manifest, n);
}

/// Nothing is found under a name that no node has.
pub proof fn law_list_of_unknown_node(manifest: Manifest, node: Seq<char>)
    requires
        forall|n: int| 0 <= n < manifest.len() ==> (#[trigger] manifest[n]).0 != node,
    ensures
        subnets_listed(manifest, node).len() == 0,
        indexes_listed(manifest, node).len() == 0,
{
    if has_key(manifest, node) {
        lemma_has_key(manifest, node);
    }
}

/// Each kept item of a filtered sequence stands somewhere in the sequence: the
/// places go upwards, and all places whose items are let through are among them.
proof fn lemma_filter_places<A>(items: Seq<A>, pred: spec_fn(A) -> bool) -> (at: Seq<int>)
    ensures
        at.len() == items.filter(pred).len(),
        forall|k: int, l: int| 0 <= k < l < at.len() ==> #[trigger] at[k] < #[trigger] at[l],
        forall|k: int|
            0 <= k < at.len() ==> 0 <= #[trigger] at[k] < items.len() && pred(items[at[k]])
                && items.filter(pred)[k] == items[at[k]],
        forall|i: int| 0 <= i < items.len() && pred(#[trigger] items[i]) ==> at.contains(i),
    decreases items.len(),
{
    reveal(Seq::filter);
    if items.len() == 0 {
        Seq::empty()
    } else {
        let init = items.drop_last();
        let last = items.len() - 1;
        let before = lemma_filter_places(init, pred);
        let at = if pred(items[last]) {
            before.push(last)
        } else {
            before
        };
        assert forall|i: int| 0 <= i < items.len() && pred(#[trigger] items[i]) implies at.contains(
            i,
        ) by {
            if i < last {
                assert(init[i] == items[i]);
                assert(before.contains(i));
                let k = choose|k: int| 0 <= k < before.len() && before[k] == i;
                assert(at[k] == i);
            } else {
                assert(at[at.len() - 1] == i);
            }
        }
        at
    }
}

/// What two nodes share is a selection from the list of the first: it keeps,
/// once each and in their order, the entries of that list that the second node
/// lists too.
pub proof fn law_shared_selection(manifest: Manifest, a: int, b: int) -> (at: Seq<int>)
    requires
        forall|i: int, j: int|
            0 <= i < j < manifest.len() ==> (#[trigger] manifest[i]).0
                != (#[trigger] manifest[j]).0,
        0 <= a < manifest.len(),
        0 <= b < manifest.len(),
    ensures
        subnets_shared(manifest, manifest[a].0, manifest[b].0).len() == at.len(),
        at.len() <= manifest[a].1.len(),
        forall|k: int, l: int| 0 <= k < l < at.len() ==> #[trigger] at[k] < #[trigger] at[l],
        forall|k: int|
            0 <= k < at.len() ==> 0 <= #[trigger] at[k] < manifest[a].1.len() && subnets_shared(
                manifest,
                manifest[a].0,
                manifest[b].0,
            )[k] == manifest[a].1[at[k]],
        forall|i: int|
            0 <= i < manifest[a].1.len() ==> (at.contains(i) <==> exists|j: int|
                0 <= j < manifest[b].1.len() && manifest[b].1[j] == #[trigger] manifest[a].1[i]),
{
    let in_b = |s: Seq<char>| subnets_listed(manifest, manifest[b].0).contains(s);
    law_list_of_node(manifest, a);
    law_list_of_node(manifest, b);
    assert(subnets_listed(manifest, manifest[a].0) =~= manifest[a].1);
    assert(subnets_listed(manifest, manifest[b].0) =~= manifest[b].1);
    let at = lemma_filter_places(manifest[a].1, in_b);
    manifest[a].1.lemma_filter_len(in_b);
    assert forall|i: int| 0 <= i < manifest[a].1.len() implies (at.contains(i) <==> exists|j: int|
        0 <= j < manifest[b].1.len() && manifest[b].1[j] == #[trigger] manifest[a].1[i]) by {
        if at.contains(i) {
            let k = choose|k: int| 0 <= k < at.len() && at[k] == i;
            assert(in_b(manifest[a].1[at[k]]));
        }
        if exists|j: int| 0 <= j < manifest[b].1.len() && manifest[b].1[j] == manifest[a].1[i] {
            assert(in_b(manifest[a].1[i]));
        }
    }
    at
}

/// The mentions of the first nodes come first.
proof fn lemma_mentions_prefix(manifest: Manifest, k: int)
    requires
        0 <= k <= manifest.len(),
    ensures
        mentions(manifest.take(k)).is_prefix_of(mentions(manifest)),
    decreases manifest.len(),
{
    if k == manifest.len() {
        assert(manifest.take(k) =~= manifest);
    } else {
        let init = manifest.drop_last();
        lemma_mentions_prefix(init, k);
        assert(init.take(k) =~= manifest.take(k));
    }
}

/// Where a subnet is listed before another is listed for the first time, it
/// has the smaller index: indexes follow the order of first appearance in the
/// manifest, node by node and, within a node, along its list.
pub proof fn law_first_appearance(manifest: Manifest, n: int, i: int, p: int, q: int)
    requires
        0 <= n < manifest.len(),
        0 <= i < manifest[n].1.len(),
        0 <= p < manifest.len(),
        0 <= q < manifest[p].1.len(),
        forall|m: int, j: int|
            0 <= m <= n && 0 <= j < manifest[m].1.len() && (m < n || j <= i)
                ==> #[trigger] manifest[m].1[j] != manifest[p].1[q],
    ensures
        subnet_index(manifest, manifest[n].1[i]) < subnet_index(manifest, manifest[p].1[q]),
{
    let s = manifest[n].1[i];
    let t = manifest[p].1[q];
    let all = mentions(manifest);
    let earlier = mentions(manifest.take(n));
    let here = mentions_by(manifest[n].0, manifest[n].1.take(i + 1));
    let head = earlier + here;
    let rest = all.skip(head.len() as int);
    let order = subnet_order(manifest);
    assert(all =~= head + rest) by {
        lemma_mentions_prefix(manifest, n + 1);
        let longer = mentions(manifest.take(n + 1));
        assert(manifest.take(n + 1).drop_last() =~= manifest.take(n));
        assert(longer == earlier + mentions_by(manifest[n].0, manifest[n].1));
        assert(longer =~= all.subrange(0, longer.len() as int));
        assert forall|x: int| 0 <= x < head.len() implies head[x] == all[x] by {
            assert(head[x] == longer[x]);
            assert(all.subrange(0, longer.len() as int)[x] == all[x]);
        }
    }
    assert(keys(all) =~= keys(head) + keys(rest));
    lemma_first_occurrences_prefix(keys(head), keys(rest));
    lemma_first_occurrences(keys(head));
    lemma_subnet_order(manifest);
    let first = first_occurrences(keys(head));
    assert(keys(head)[head.len() - 1] == s);
    assert(keys(head).contains(s));
    assert(!keys(head).contains(t)) by {
        if keys(head).contains(t) {
            let x = choose|x: int| 0 <= x < keys(head).len() && keys(head)[x] == t;
            if x < earlier.len() {
                assert(earlier[x] == (t, earlier[x].1));
                lemma_mentions(manifest.take(n), t, earlier[x].1);
                let m = choose|m: int|
                    0 <= m < manifest.take(n).len() && (#[trigger] manifest.take(n)[m]).0
                        == earlier[x].1 && manifest.take(n)[m].1.contains(t);
                let j = choose|j: int| 0 <= j < manifest[m].1.len() && manifest[m].1[j] == t;
                assert(manifest[m].1[j] != t);
            } else {
                let j = x - earlier.len();
                assert(here[j].0 == manifest[n].1[j]);
            }
        }
    }
    assert(first.contains(s));
    let x = choose|x: int| 0 <= x < first.len() && first[x] == s;
    assert(order[x] == s) by {
        assert(order.subrange(0, first.len() as int)[x] == order[x]);
    }
    assert(manifest[p].1.contains(t) && is_subnet(manifest, t));
    assert(order.contains(s) && order.contains(t));
    let y = order.index_of(t);
    assert(order[y] == t);
    if y < first.len() {
        assert(order.subrange(0, first.len() as int)[y] == order[y]);
        assert(first.contains(t));
    }
}

/// Each entry of the metadata is that of a subnet which some node lists, under
/// its name. The entries are numbered from 21 on.
pub proof fn law_metadata_entry(manifest: Manifest, p: int) -> (place: (int, int))
    requires
        0 <= p < subnet_metadata(manifest).len(),
    ensures
        subnet_metadata(manifest)[p].1.name == subnet_metadata(manifest)[p].0,
        subnet_metadata(manifest)[p].1.index == 21 + p,
        0 <= place.0 < manifest.len(),
        0 <= place.1 < manifest[place.0].1.len(),
        manifest[place.0].1[place.1] == subnet_metadata(manifest)[p].0,
{
    let order = subnet_order(manifest);
    lemma_subnet_order(manifest);
    assert(order.contains(order[p]));
    lemma_listed(manifest, order[p])
}

/// Each subnet that a node lists has an entry in the metadata.
pub proof fn law_metadata_covers(manifest: Manifest, n: int, i: int) -> (p: int)
    requires
        0 <= n < manifest.len(),
        0 <= i < manifest[n].1.len(),
    ensures
        0 <= p < subnet_metadata(manifest).len(),
        subnet_metadata(manifest)[p].0 == manifest[n].1[i],
{
    let order = subnet_order(manifest);
    lemma_subnet_order(manifest);
    assert(manifest[n].1.contains(manifest[n].1[i]));
    assert(order.contains(manifest[n].1[i]));
    order.index_of(manifest[n].1[i])
}

/// The entries of the metadata are those of different subnets, in the order of
/// first appearance: before every place that lists the subnet of a later entry
/// there is one that lists the subnet of the earlier entry.
pub proof fn law_metadata_order(manifest: Manifest, p: int, q: int, m: int, j: int) -> (place: (
    int,
    int,
))
    requires
        0 <= p < q < subnet_metadata(manifest).len(),
        0 <= m < manifest.len(),
        0 <= j < manifest[m].1.len(),
        manifest[m].1[j] == subnet_metadata(manifest)[q].0,
    ensures
        subnet_metadata(manifest)[p].0 != subnet_metadata(manifest)[q].0,
        0 <= place.0 <= m,
        0 <= place.1 < manifest[place.0].1.len(),
        place.0 < m || place.1 < j,
        manifest[place.0].1[place.1] == subnet_metadata(manifest)[p].0,
{
    let order = subnet_order(manifest);
    let s = order[p];
    lemma_subnet_order(manifest);
    assert(order[p] != order[q]);
    if !exists|n: int, i: int|
        0 <= n <= m && 0 <= i < manifest[n].1.len() && (n < m || i < j) && #[trigger] manifest[n].1[i]
            == s {
        assert(order.contains(s));
        let (a, b) = lemma_listed(manifest, s);
        law_first_appearance(manifest, m, j, a, b);
        law_indexes_unique(manifest);
        assert(subnet_index(manifest, order[p]) == 21 + p);
        assert(subnet_index(manifest, order[q]) == 21 + q);
    }
    choose|n: int, i: int|
        0 <= n <= m && 0 <= i < manifest[n].1.len() && (n < m || i < j) && #[trigger] manifest[n].1[i]
            == s
}

/// A subnet stands somewhere in the list of a node.
proof fn lemma_listed(manifest: Manifest, subnet: Seq<char>) -> (place: (int, int))
    requires
        is_subnet(manifest, subnet),
    ensures
        0 <= place.0 < manifest.len(),
        0 <= place.1 < manifest[place.0].1.len(),
        manifest[place.0].1[place.1] == subnet,
{
    let n = choose|n: int| 0 <= n < manifest.len() && (#[trigger] manifest[n]).1.contains(subnet);
    let i = choose|i: int| 0 <= i < manifest[n].1.len() && manifest[n].1[i] == subnet;
    (n, i)
}

/// A node gets, for each entry of its list and in the order of the list, the
/// subnet with the index that the subnet's metadata holds: every node that
/// lists a subnet gets the same index for it.
pub proof fn law_indexes_of_node(manifest: Manifest, n: int)
    requires
        forall|i: int, j: int|
            0 <= i < j < manifest.len() ==> (#[trigger] manifest[i]).0
                != (#[trigger] manifest[j]).0,
        0 <= n < manifest.len(),
    ensures
        indexes_listed(manifest, manifest[n].0).len() == manifest[n].1.len(),
        forall|i: int|
            0 <= i < manifest[n].1.len() ==> (#[trigger] indexes_listed(
                manifest,
                manifest[n].0,
            )[i]).0 == manifest[n].1[i],
        forall|i: int, p: int|
            0 <= i < manifest[n].1.len() && 0 <= p < subnet_metadata(manifest).len()
                && (#[trigger] subnet_metadata(manifest)[p]).0 == manifest[n].1[i]
                ==> (#[trigger] indexes_listed(manifest, manifest[n].0)[i]).1 == subnet_metadata(
                manifest,
            )[p].1.index,
        forall|i: int|
            0 <= i < manifest[n].1.len() ==> (#[trigger] indexes_listed(
                manifest,
                manifest[n].0,
            )[i]).1 == value(subnet_metadata(manifest), manifest[n].1[i]).index,
{
    let entries = subnet_metadata(manifest);
    let pairs = indexes_listed(manifest, manifest[n].0);
    law_list_of_node(manifest, n);
    law_indexes_unique(manifest);
    lemma_subnet_order(manifest);
    assert(keys(entries) =~= subnet_order(manifest));
    assert forall|i: int, p: int|
        0 <= i < manifest[n].1.len() && 0 <= p < entries.len() && (#[trigger] entries[p]).0
            == manifest[n].1[i] implies (#[trigger] pairs[i]).1 == entries[p].1.index by {
        assert(subnet_order(manifest)[p] == manifest[n].1[i]);
    }
    assert forall|i: int| 0 <= i < manifest[n].1.len() implies (#[trigger] pairs[i]).1 == value(
        entries,
        manifest[n].1[i],
    ).index by {
        assert(manifest[n].1.contains(manifest[n].1[i]));
        law_metadata(manifest, manifest[n].1[i]);
    }
}

/// The map of blocks has the entries of the metadata, in the same order, each
/// with its block.
pub proof fn law_cidr_map(manifest: Manifest)
    ensures
        cidr_blocks(manifest).len() == subnet_metadata(manifest).len(),
        forall|p: int|
            0 <= p < cidr_blocks(manifest).len() ==> {
                &&& (#[trigger] cidr_blocks(manifest)[p]).0 == subnet_metadata(manifest)[p].0
                &&& cidr_blocks(manifest)[p].1 == subnet_metadata(manifest)[p].1.cidr
                &&& cidr_blocks(manifest)[p].1 == cidr_block((21 + p) as nat)
            },
{
}

/// Every place of the manifest that lists a subnet, node by node and along the
/// lists.
spec fn places(manifest: Manifest) -> Seq<(int, int)>
    decreases manifest.len(),
{
    if manifest.len() == 0 {
        Seq::empty()
    } else {
        places(manifest.drop_last()) + Seq::new(
            manifest.last().1.len(),
            |i: int| (manifest.len() - 1, i),
        )
    }
}

/// The mentions are made at the places, one at each.
proof fn lemma_places(manifest: Manifest)
    ensures
        places(manifest).len() == mentions(manifest).len(),
        forall|x: int|
            0 <= x < places(manifest).len() ==> {
                let (n, i) = #[trigger] places(manifest)[x];
                &&& 0 <= n < manifest.len()
                &&& 0 <= i < manifest[n].1.len()
                &&& mentions(manifest)[x] == (manifest[n].1[i], manifest[n].0)
            },
        forall|x: int, y: int|
            0 <= x < y < places(manifest).len() ==> {
                let a = #[trigger] places(manifest)[x];
                let b = #[trigger] places(manifest)[y];
                a.0 < b.0 || a.0 == b.0 && a.1 < b.1
            },
    decreases manifest.len(),
{
    if manifest.len() > 0 {
        let init = manifest.drop_last();
        let last = manifest.len() - 1;
        let before = places(init);
        let all = places(manifest);
        lemma_places(init);
        assert forall|x: int| 0 <= x < all.len() implies {
            let (n, i) = #[trigger] all[x];
            &&& 0 <= n < manifest.len()
            &&& 0 <= i < manifest[n].1.len()
            &&& mentions(manifest)[x] == (manifest[n].1[i], manifest[n].0)
        } by {
            if x < before.len() {
                assert(all[x] == before[x]);
                assert(mentions(manifest)[x] == mentions(init)[x]);
            } else {
                assert(all[x] == (last, x - before.len()));
            }
        }
        assert forall|x: int, y: int| 0 <= x < y < all.len() implies {
            let a = #[trigger] all[x];
            let b = #[trigger] all[y];
            a.0 < b.0 || a.0 == b.0 && a.1 < b.1
        } by {
            if x < before.len() {
                assert(all[x] == before[x]);
            }
            if y < before.len() {
                assert(all[y] == before[y]);
            }
        }
    }
}

/// Every place is among the places.
proof fn lemma_is_place(manifest: Manifest, n: int, i: int)
    requires
        0 <= n < manifest.len(),
        0 <= i < manifest[n].1.len(),
    ensures
        places(manifest).contains((n, i)),
    decreases manifest.len(),
{
    let init = manifest.drop_last();
    let before = places(init);
    let all = places(manifest);
    if n < init.len() {
        lemma_is_place(init, n, i);
        let x = choose|x: int| 0 <= x < before.len() && before[x] == (n, i);
        assert(all[x] == (n, i));
    } else {
        assert(all[before.len() + i] == (n, i));
    }
}

/// The nodes that mention a subnet, each with its place among the mentions.
proof fn lemma_mentioning_places(
    mentioned: Seq<(Seq<char>, Seq<char>)>,
    subnet: Seq<char>,
) -> (at: Seq<int>)
    ensures
        at.len() == nodes_mentioning(mentioned, subnet).len(),
        forall|k: int, l: int| 0 <= k < l < at.len() ==> #[trigger] at[k] < #[trigger] at[l],
        forall|k: int|
            0 <= k < at.len() ==> 0 <= #[trigger] at[k] < mentioned.len() && mentioned[at[k]] == (
                subnet,
                nodes_mentioning(mentioned, subnet)[k],
            ),
        forall|x: int|
            0 <= x < mentioned.len() && (#[trigger] mentioned[x]).0 == subnet ==> at.contains(x),
    decreases mentioned.len(),
{
    reveal(Seq::filter);
    if mentioned.len() == 0 {
        Seq::empty()
    } else {
        let init = mentioned.drop_last();
        let last = mentioned.len() - 1;
        let before = lemma_mentioning_places(init, subnet);
        let at = if mentioned[last].0 == subnet {
            before.push(last)
        } else {
            before
        };
        assert(nodes_mentioning(mentioned, subnet) =~= if mentioned[last].0 == subnet {
            nodes_mentioning(init, subnet).push(mentioned[last].1)
        } else {
            nodes_mentioning(init, subnet)
        });
        assert forall|x: int|
            0 <= x < mentioned.len() && (#[trigger] mentioned[x]).0 == subnet implies at.contains(
            x,
        ) by {
            if x < last {
                assert(init[x].0 == subnet);
                assert(before.contains(x));
                let k = choose|k: int| 0 <= k < before.len() && before[k] == x;
                assert(at[k] == x);
            } else {
                assert(at[at.len() - 1] == x);
            }
        }
        at
    }
}

/// The nodes of a subnet are those of the places that list it: one for each
/// such place, in the order of the manifest. The subnets come in the order of
/// the metadata.
pub proof fn law_nodes_of_subnet(manifest: Manifest, p: int) -> (at: Seq<(int, int)>)
    requires
        0 <= p < nodes_by_subnet(manifest).len(),
    ensures
        nodes_by_subnet(manifest).len() == subnet_metadata(manifest).len(),
        nodes_by_subnet(manifest)[p].0 == subnet_metadata(manifest)[p].0,
        nodes_by_subnet(manifest)[p].1.len() == at.len(),
        forall|k: int|
            0 <= k < at.len() ==> {
                let (n, i) = #[trigger] at[k];
                &&& 0 <= n < manifest.len()
                &&& 0 <= i < manifest[n].1.len()
                &&& manifest[n].1[i] == nodes_by_subnet(manifest)[p].0
                &&& nodes_by_subnet(manifest)[p].1[k] == manifest[n].0
            },
        forall|k: int, l: int|
            0 <= k < l < at.len() ==> {
                let a = #[trigger] at[k];
                let b = #[trigger] at[l];
                a.0 < b.0 || a.0 == b.0 && a.1 < b.1
            },
        forall|n: int, i: int|
            0 <= n < manifest.len() && 0 <= i < manifest[n].1.len() && #[trigger] manifest[n].1[i]
                == nodes_by_subnet(manifest)[p].0 ==> at.contains((n, i)),
{
    let s = subnet_order(manifest)[p];
    let all = places(manifest);
    lemma_places(manifest);
    let picked = lemma_mentioning_places(mentions(manifest), s);
    let at = picked.map_values(|x: int| all[x]);
    assert(nodes_by_subnet(manifest)[p] == (s, nodes_mentioning(mentions(manifest), s)));
    assert forall|k: int| 0 <= k < at.len() implies {
        let (n, i) = #[trigger] at[k];
        &&& 0 <= n < manifest.len()
        &&& 0 <= i < manifest[n].1.len()
        &&& manifest[n].1[i] == s
        &&& nodes_by_subnet(manifest)[p].1[k] == manifest[n].0
    } by {
        assert(at[k] == all[picked[k]]);
    }
    assert forall|k: int, l: int| 0 <= k < l < at.len() implies {
        let a = #[trigger] at[k];
        let b = #[trigger] at[l];
        a.0 < b.0 || a.0 == b.0 && a.1 < b.1
    } by {
        assert(at[k] == all[picked[k]] && at[l] == all[picked[l]]);
        assert(picked[k] < picked[l]);
    }
    assert forall|n: int, i: int|
        0 <= n < manifest.len() && 0 <= i < manifest[n].1.len() && #[trigger] manifest[n].1[i]
            == s implies at.contains((n, i)) by {
        lemma_is_place(manifest, n, i);
        let x = choose|x: int| 0 <= x < all.len() && all[x] == (n, i);
        assert(mentions(manifest)[x].0 == s);
        assert(picked.contains(x));
        let k = choose|k: int| 0 <= k < picked.len() && picked[k] == x;
        assert(at[k] == (n, i));
    }
    at
}

/// Subnets that reach each other are on the same side of every cut, where a
/// cut sets the subnets of no node apart.
pub proof fn law_reachable_uncut(
    manifest: Manifest,
    a: Seq<char>,
    b: Seq<char>,
    side: spec_fn(Seq<char>) -> bool,
)
    requires
        reachable(manifest, a, b),
        forall|n: int, i: int, j: int|
            0 <= n < manifest.len() && 0 <= i < manifest[n].1.len() && 0 <= j < manifest[n].1.len()
                ==> side(#[trigger] manifest[n].1[i]) == side(#[trigger] manifest[n].1[j]),
    ensures
        side(a) == side(b),
{
    let path = choose|path: Seq<Seq<char>>| #[trigger]
        is_path(manifest, path) && path.first() == a && path.last() == b;
    lemma_path_uncut(manifest, path, side, path.len() - 1);
}

/// A path stays on its side of a cut.
proof fn lemma_path_uncut(
    manifest: Manifest,
    path: Seq<Seq<char>>,
    side: spec_fn(Seq<char>) -> bool,
    k: int,
)
    requires
        is_path(manifest, path),
        0 <= k < path.len(),
        forall|n: int, i: int, j: int|
            0 <= n < manifest.len() && 0 <= i < manifest[n].1.len() && 0 <= j < manifest[n].1.len()
                ==> side(#[trigger] manifest[n].1[i]) == side(#[trigger] manifest[n].1[j]),
    ensures
        side(path[0]) == side(path[k]),
    decreases k,
{
    if k > 0 {
        lemma_path_uncut(manifest, path, side, k - 1);
        assert(linked(manifest, path[k - 1], path[k - 1 + 1]));
        let n = choose|n: int|
            0 <= n < manifest.len() && (#[trigger] manifest[n]).1.contains(path[k - 1])
                && manifest[n].1.contains(path[k]);
        let i = choose|i: int| 0 <= i < manifest[n].1.len() && manifest[n].1[i] == path[k - 1];
        let j = choose|j: int| 0 <= j < manifest[n].1.len() && manifest[n].1[j] == path[k];
        assert(side(manifest[n].1[i]) == side(manifest[n].1[j]));
    }
}

/// Subnets that do not reach each other are set apart by some cut that sets
/// the subnets of no node apart.
pub proof fn law_unreachable_cut(manifest: Manifest, a: Seq<char>, b: Seq<char>) -> (side: spec_fn(
    Seq<char>,
) -> bool)
    requires
        !reachable(manifest, a, b),
    ensures
        side(a) != side(b),
        forall|n: int, i: int, j: int|
            0 <= n < manifest.len() && 0 <= i < manifest[n].1.len() && 0 <= j < manifest[n].1.len()
                ==> side(#[trigger] manifest[n].1[i]) == side(#[trigger] manifest[n].1[j]),
{
    let side = |s: Seq<char>| reachable(manifest, a, s);
    lemma_reachable_refl(manifest, a);
    assert forall|n: int, i: int, j: int|
        0 <= n < manifest.len() && 0 <= i < manifest[n].1.len() && 0 <= j
            < manifest[n].1.len() implies side(#[trigger] manifest[n].1[i]) == side(
        #[trigger] manifest[n].1[j],
    ) by {
        let s = manifest[n].1[i];
        let t = manifest[n].1[j];
        assert(manifest[n].1.contains(s) && manifest[n].1.contains(t));
        assert(linked(manifest, s, t) && linked(manifest, t, s));
        lemma_linked_reachable(manifest, s, t);
        lemma_linked_reachable(manifest, t, s);
        if reachable(manifest, a, s) {
            lemma_reachable_transitive(manifest, a, s, t);
        }
        if reachable(manifest, a, t) {
            lemma_reachable_transitive(manifest, a, t, s);
        }
    }
    side
}

/// A network is disconnected where its subnets can be cut in two without
/// setting the subnets of any node apart.
pub proof fn law_cut_disconnects(
    manifest: Manifest,
    side: spec_fn(Seq<char>) -> bool,
    n: int,
    i: int,
    k: int,
    j: int,
)
    requires
        forall|n: int, i: int, j: int|
            0 <= n < manifest.len() && 0 <= i < manifest[n].1.len() && 0 <= j < manifest[n].1.len()
                ==> side(#[trigger] manifest[n].1[i]) == side(#[trigger] manifest[n].1[j]),
        0 <= n < manifest.len(),
        0 <= i < manifest[n].1.len(),
        0 <= k < manifest.len(),
        0 <= j < manifest[k].1.len(),
        side(manifest[n].1[i]) != side(manifest[k].1[j]),
    ensures
        !connected(manifest),
        components(manifest).len() > 1,
{
    let s = manifest[n].1[i];
    let t = manifest[k].1[j];
    lemma_connected_components(manifest);
    assert(manifest[n].1.contains(s) && manifest[k].1.contains(t));
    assert(is_subnet(manifest, s) && is_subnet(manifest, t));
    if reachable(manifest, s, t) {
        law_reachable_uncut(manifest, s, t, side);
    }
}

/// A disconnected network has such a cut: two places of the manifest list
/// subnets on different sides, and no node does.
pub proof fn law_disconnected_cut(manifest: Manifest) -> (cut: (
    spec_fn(Seq<char>) -> bool,
    (int, int),
    (int, int),
))
    requires
        !connected(manifest),
    ensures
        forall|n: int, i: int, j: int|
            0 <= n < manifest.len() && 0 <= i < manifest[n].1.len() && 0 <= j < manifest[n].1.len()
                ==> (cut.0)(#[trigger] manifest[n].1[i]) == (cut.0)(#[trigger] manifest[n].1[j]),
        0 <= cut.1.0 < manifest.len(),
        0 <= cut.1.1 < manifest[cut.1.0].1.len(),
        0 <= cut.2.0 < manifest.len(),
        0 <= cut.2.1 < manifest[cut.2.0].1.len(),
        (cut.0)(manifest[cut.1.0].1[cut.1.1]) != (cut.0)(manifest[cut.2.0].1[cut.2.1]),
{
    let (a, b) = choose|a: Seq<char>, b: Seq<char>|
        is_subnet(manifest, a) && is_subnet(manifest, b) && !#[trigger] reachable(manifest, a, b);
    let side = law_unreachable_cut(manifest, a, b);
    let x = lemma_listed(manifest, a);
    let y = lemma_listed(manifest, b);
    (side, x, y)
}

/// Each component that is left stands under a subnet that some node lists.
pub proof fn law_component_key(manifest: Manifest, c: int) -> (place: (int, int))
    requires
        0 <= c < components(manifest).len(),
    ensures
        0 <= place.0 < manifest.len(),
        0 <= place.1 < manifest[place.0].1.len(),
        manifest[place.0].1[place.1] == components(manifest)[c].0,
{
    lemma_merged(manifest);
    lemma_position(components(manifest), c);
    lemma_listed(manifest, components(manifest)[c].0)
}

/// Each subnet that a node lists reaches a component that is left.
pub proof fn law_component_covers(manifest: Manifest, n: int, i: int) -> (c: int)
    requires
        0 <= n < manifest.len(),
        0 <= i < manifest[n].1.len(),
    ensures
        0 <= c < components(manifest).len(),
        reachable(manifest, manifest[n].1[i], components(manifest)[c].0),
{
    let s = manifest[n].1[i];
    assert(manifest[n].1.contains(s));
    law_components_partition(manifest);
    assert(is_subnet(manifest, s));
    let k = choose|k: Seq<char>| #[trigger]
        has_key(components(manifest), k) && reachable(manifest, s, k);
    lemma_has_key(components(manifest), k);
    position(components(manifest), k)
}

/// Different components that are left do not reach each other.
pub proof fn law_components_apart(manifest: Manifest, c: int, d: int)
    requires
        0 <= c < components(manifest).len(),
        0 <= d < components(manifest).len(),
        c != d,
    ensures
        !reachable(manifest, components(manifest)[c].0, components(manifest)[d].0),
{
    let left = components(manifest);
    law_components_partition(manifest);
    lemma_position(left, c);
    lemma_position(left, d);
}

/// Without a node on two subnets, each subnet is a component, with its nodes.
pub proof fn law_components_unbridged(manifest: Manifest)
    requires
        forall|n: int| 0 <= n < manifest.len() ==> (#[trigger] manifest[n]).1.len() <= 1,
    ensures
        components(manifest) == nodes_by_subnet(manifest),
{
    lemma_merge_unbridged(Merging::start(manifest), manifest);
}

/// Nodes that list at most one subnet merge nothing.
proof fn lemma_merge_unbridged(stage: Merging, nodes: Manifest)
    requires
        forall|n: int| 0 <= n < nodes.len() ==> (#[trigger] nodes[n]).1.len() <= 1,
    ensures
        stage.merge_nodes(nodes) == stage,
    decreases nodes.len(),
{
    if nodes.len() > 0 {
        lemma_merge_unbridged(stage, nodes.drop_last());
        assert(nodes[nodes.len() - 1].1.len() <= 1);
    }
}

/// Nodes merge one after the other.
proof fn lemma_merge_concat(stage: Merging, a: Manifest, b: Manifest)
    ensures
        stage.merge_nodes(a + b) == stage.merge_nodes(a).merge_nodes(b),
    decreases b.len(),
{
    if b.len() > 0 {
        lemma_merge_concat(stage, a, b.drop_last());
        assert((a + b).drop_last() =~= a + b.drop_last());
    } else {
        assert(a + b =~= a);
    }
}

/// The mentions of nodes come one node after the other.
proof fn lemma_mentions_concat(a: Manifest, b: Manifest)
    ensures
        mentions(a + b) == mentions(a) + mentions(b),
    decreases b.len(),
{
    if b.len() > 0 {
        lemma_mentions_concat(a, b.drop_last());
        assert((a + b).drop_last() =~= a + b.drop_last());
        assert(mentions(a + b) =~= mentions(a) + mentions(b));
    } else {
        assert(a + b =~= a);
        assert(mentions(a + b) =~= mentions(a) + mentions(b));
    }
}

/// What the last bridge of a network does. `apart` is the network in which the
/// node makes its last mention apart from the others, so that it does not
/// bridge the subnet `l.last()` to the rest of its list `l`; `whole` is the
/// network in which it does. The component of `l.last()` then joins that of
/// `l.first()` where it stands under `l.last()` itself; otherwise the component
/// of `l.first()` joins it. The one that joins adds its nodes behind those of
/// the other and leaves its place to the last component.
pub proof fn law_components_bridge(
    before: Manifest,
    node: Seq<char>,
    l: Seq<Seq<char>>,
    after: Manifest,
    a: int,
    b: int,
)
    requires
        l.len() >= 2,
        forall|n: int| 0 <= n < after.len() ==> (#[trigger] after[n]).1.len() <= 1,
        ({
            let apart = before + seq![(node, l.drop_last()), (node, seq![l.last()])] + after;
            &&& 0 <= a < components(apart).len()
            &&& 0 <= b < components(apart).len()
            &&& reachable(apart, l.first(), components(apart)[a].0)
            &&& reachable(apart, l.last(), components(apart)[b].0)
        }),
    ensures
        ({
            let apart = components(
                before + seq![(node, l.drop_last()), (node, seq![l.last()])] + after,
            );
            let whole = components(before + seq![(node, l)] + after);
            let (from, into) = if apart[b].0 == l.last() {
                (b, a)
            } else {
                (a, b)
            };
            &&& a == b ==> whole == apart
            &&& a != b ==> {
                &&& whole.len() == apart.len() - 1
                &&& forall|c: int|
                    0 <= c < whole.len() ==> {
                        let source = if c == from {
                            apart.len() - 1
                        } else {
                            c
                        };
                        &&& (#[trigger] whole[c]).0 == apart[source].0
                        &&& whole[c].1 == (if source == into {
                            apart[into].1 + apart[from].1
                        } else {
                            apart[source].1
                        })
                    }
            }
        }),
{
    let split = seq![(node, l.drop_last()), (node, seq![l.last()])];
    let joined = seq![(node, l)];
    let apart = before + split + after;
    let whole = before + joined + after;
    let none: Manifest = Seq::empty();
    let start = Merging::start(apart);
    assert(Merging::start(whole) == start) by {
        lemma_mentions_concat(before + split, after);
        lemma_mentions_concat(before, split);
        lemma_mentions_concat(before + joined, after);
        lemma_mentions_concat(before, joined);
        assert(split.drop_last() =~= seq![(node, l.drop_last())]);
        assert(split.drop_last().drop_last() =~= none);
        assert(joined.drop_last() =~= none);
        assert(mentions(none).len() == 0);
        assert(mentions(split.drop_last()) =~= mentions_by(node, l.drop_last()));
        assert(mentions(joined) =~= mentions_by(node, l));
        assert(mentions(split) =~= mentions(joined));
    }
    let stage = start.merge_nodes(before);
    let done = start.merge_nodes(apart);
    assert(done == stage.merge_list(l.drop_last())) by {
        lemma_merge_concat(start, before + split, after);
        lemma_merge_concat(start, before, split);
        lemma_merge_unbridged(start.merge_nodes(before + split), after);
        assert(split.drop_last() =~= seq![(node, l.drop_last())]);
        assert(split.drop_last().drop_last() =~= none);
        assert(stage.merge_nodes(none) == stage);
        assert(stage.merge_nodes(split.drop_last()) == stage.merge_list(l.drop_last()));
    }
    assert(start.merge_nodes(whole) == done.merge(l.first(), l.last())) by {
        lemma_merge_concat(start, before + joined, after);
        lemma_merge_concat(start, before, joined);
        lemma_merge_unbridged(start.merge_nodes(before + joined), after);
        assert(joined.drop_last() =~= none);
        assert(stage.merge_nodes(none) == stage);
    }
    lemma_merged(apart);
    let left = done.components;
    lemma_position(left, a);
    lemma_position(left, b);
    assert(is_subnet(apart, l.first()) && is_subnet(apart, l.last())) by {
        let n = before.len() as int;
        assert(apart[n] == (node, l.drop_last()));
        assert(apart[n + 1] == (node, seq![l.last()]));
        assert(l.drop_last()[0] == l.first());
        assert(seq![l.last()][0] == l.last());
        assert(apart[n].1.contains(l.first()));
        assert(apart[n + 1].1.contains(l.last()));
    }
    assert((done.leader)(l.first()) == left[a].0);
    assert((done.leader)(l.last()) == left[b].0);
    if a != b {
        let (from, into) = if left[b].0 == l.last() {
            (b, a)
        } else {
            (a, b)
        };
        assert(left[a].0 != left[b].0) by {
            assert(keys(left)[a] == left[a].0 && keys(left)[b] == left[b].0);
        }
        lemma_absorb_places(done, from, into);
    }
}

/// Where the components stand after one of them has joined another.
proof fn lemma_absorb_places(stage: Merging, from: int, into: int)
    requires
        keys(stage.components).no_duplicates(),
        0 <= from < stage.components.len(),
        0 <= into < stage.components.len(),
        from != into,
    ensures
        ({
            let left = stage.components;
            let after = stage.absorb(left[from].0, left[into].0).components;
            &&& after.len() == left.len() - 1
            &&& forall|c: int|
                0 <= c < after.len() ==> {
                    let source = if c == from {
                        left.len() - 1
                    } else {
                        c
                    };
                    &&& (#[trigger] after[c]).0 == left[source].0
                    &&& after[c].1 == (if source == into {
                        left[into].1 + left[from].1
                    } else {
                        left[source].1
                    })
                }
        }),
{
    let left = stage.components;
    let rest = swap_removed(left, left[from].0);
    let t = if into == left.len() - 1 {
        from
    } else {
        into
    };
    lemma_position(left, from);
    lemma_position(left, into);
    lemma_swap_removed(left, left[from].0);
    assert(rest[t] == left[into]);
    lemma_position(rest, t);
}

/// A map has a key where one of its entries does, and a key stands for what
/// that entry holds.
pub proof fn law_lookup<V>(entries: Seq<(Seq<char>, V)>, key: Seq<char>)
    requires
        forall|i: int, j: int|
            0 <= i < j < entries.len() ==> (#[trigger] entries[i]).0 != (#[trigger] entries[j]).0,
    ensures
        has_key(entries, key) <==> exists|i: int|
            0 <= i < entries.len() && (#[trigger] entries[i]).0 == key,
        forall|i: int|
            0 <= i < entries.len() && (#[trigger] entries[i]).0 == key ==> value(entries, key)
                == entries[i].1,
{
    lemma_distinct_keys(entries);
    if has_key(entries, key) {
        lemma_has_key(entries, key);
    }
    assert forall|i: int| 0 <= i < entries.len() && (#[trigger] entries[i]).0 == key implies value(
        entries,
        key,
    ) == entries[i].1 && has_key(entries, key) by {
        lemma_position(entries, i);
    }
}

/// Setting the value of a key that has an entry changes that entry only; a key
/// without an entry gets one at the end.
pub proof fn law_set_value<V>(entries: Seq<(Seq<char>, V)>, key: Seq<char>, v: V)
    requires
        forall|i: int, j: int|
            0 <= i < j < entries.len() ==> (#[trigger] entries[i]).0 != (#[trigger] entries[j]).0,
    ensures
        forall|i: int|
            0 <= i < entries.len() && (#[trigger] entries[i]).0 == key ==> with_value(
                entries,
                key,
                v,
            ) == entries.update(i, (key, v)),
        (forall|i: int| 0 <= i < entries.len() ==> (#[trigger] entries[i]).0 != key) ==> with_value(
            entries,
            key,
            v,
        ) == entries.push((key, v)),
{
    law_lookup(entries, key);
    lemma_distinct_keys(entries);
    assert forall|i: int|
        0 <= i < entries.len() && (#[trigger] entries[i]).0 == key implies with_value(
        entries,
        key,
        v,
    ) == entries.update(i, (key, v)) by {
        lemma_position(entries, i);
    }
}

/// Taking an entry out moves the last entry to its place and changes no other.
pub proof fn law_swap_remove<V>(entries: Seq<(Seq<char>, V)>, i: int)
    requires
        forall|i: int, j: int|
            0 <= i < j < entries.len() ==> (#[trigger] entries[i]).0 != (#[trigger] entries[j]).0,
        0 <= i < entries.len(),
    ensures
        swap_removed(entries, entries[i].0).len() == entries.len() - 1,
        forall|j: int|
            0 <= j < entries.len() - 1 ==> #[trigger] swap_removed(entries, entries[i].0)[j] == (
            if j == i {
                entries[entries.len() - 1]
            } else {
                entries[j]
            }),
{
    lemma_distinct_keys(entries);
    lemma_position(entries, i);
}

/// Keys that differ from place to place are without repetition.
proof fn lemma_distinct_keys<V>(entries: Seq<(Seq<char>, V)>)
    requires
        forall|i: int, j: int|
            0 <= i < j < entries.len() ==> (#[trigger] entries[i]).0 != (#[trigger] entries[j]).0,
    ensures
        keys(entries).no_duplicates(),
{
    assert forall|i: int, j: int|
        0 <= i < keys(entries).len() && 0 <= j < keys(entries).len() && i != j implies keys(
        entries,
    )[i] != keys(entries)[j] by {
        if i < j {
            assert(entries[i].0 != entries[j].0);
        } else {
            assert(entries[j].0 != entries[i].0);
        }
    }
}

/// The contracts speak of strings by their characters and of pairs by their
/// parts, one for one and in the same order.
pub proof fn law_texts(
    strings: Seq<String>,
    indexes: Seq<(String, usize)>,
    texts: Seq<(String, String)>,
    meta: SubnetMetadata,
)
    ensures
        names(strings).len() == strings.len(),
        forall|i: int| 0 <= i < strings.len() ==> #[trigger] names(strings)[i] == strings[i]@,
        index_pairs(indexes).len() == indexes.len(),
        forall|i: int|
            0 <= i < indexes.len() ==> #[trigger] index_pairs(indexes)[i] == (
                indexes[i].0@,
                indexes[i].1 as nat,
            ),
        owned_texts(texts).len() == texts.len(),
        forall|i: int|
            0 <= i < texts.len() ==> #[trigger] owned_texts(texts)[i] == (
                texts[i].0@,
                texts[i].1@,
            ),
        meta@.name == meta.name@,
        meta@.index == meta.index,
        meta@.cidr == meta.cidr@,
{
}

/// So they do of entries that a map hands out or takes in.
pub proof fn law_entry_texts(
    lists: Seq<(&String, &Vec<String>)>,
    borrowed: Seq<(&String, &SubnetMetadata)>,
    owned: Seq<(String, SubnetMetadata)>,
)
    ensures
        borrowed_lists(lists).len() == lists.len(),
        forall|i: int|
            0 <= i < lists.len() ==> #[trigger] borrowed_lists(lists)[i] == (
                lists[i].0@,
                names(lists[i].1@),
            ),
        borrowed_metadata(borrowed).len() == borrowed.len(),
        forall|i: int|
            0 <= i < borrowed.len() ==> #[trigger] borrowed_metadata(borrowed)[i] == (
                borrowed[i].0@,
                borrowed[i].1@,
            ),
        owned_metadata(owned).len() == owned.len(),
        forall|i: int|
            0 <= i < owned.len() ==> #[trigger] owned_metadata(owned)[i] == (
                owned[i].0@,
                owned[i].1@,
            ),
{
}

} // verus!
