//! The subnets of a network and the checks that are made on them.
use indexmap::IndexMap;
use vstd::prelude::*;

use crate::decimal::decimal_text;
use crate::entries::{has_key, keys, lemma_has_key, lemma_position, value};
use crate::index_map::{
    borrowed_lists, borrowed_metadata, debug_text, lists, lists_clone, lists_debug,
    lists_entry_or_default, lists_get, lists_iter, lists_len, lists_new, metadata,
    metadata_from_iter, metadata_get, metadata_is_empty, metadata_iter, metadata_len,
    owned_metadata, owned_texts, texts, texts_from_iter,
};
use crate::manifest::{
    cidr_block, cidr_blocks, grouped, indexes_listed, is_subnet, lemma_grouped_keys,
    lemma_grouped_push, lemma_subnet_order, mentions, mentions_by, nodes_by_subnet, numbered,
    subnet_index, subnet_metadata, subnet_order, subnets_listed, subnets_shared, Manifest,
    SUBNET_INDEX_BASE,
};
use crate::merger::Merger;
use crate::node::{names, CidrBlock, NodeName, SubnetName};
use crate::topology::{
    components, connected, lemma_connected_components, lemma_few_subnets_connected,
    lemma_start_valid, linked, Merging,
};

verus! {

/// Subnets derived from the manifest.
#[derive(Debug, PartialEq)]
pub struct Subnets {
    subnets_meta: IndexMap<SubnetName, SubnetMetadata>,
    subnet_nodes: IndexMap<SubnetName, Vec<NodeName>>,
    node_subnets: IndexMap<NodeName, Vec<SubnetName>>,
}

/// Metadata for a single subnet in the testnet topology.
#[derive(Clone, Debug, PartialEq)]
pub struct SubnetMetadata {
    /// The name of the subnet in the manifest
    pub name: SubnetName,
    /// The order of first appearance of the subnet in the manifest
    pub index: usize,
    /// The CIDR block of the subnet
    pub cidr: CidrBlock,
}

/// What a [`SubnetMetadata`] says.
pub struct MetadataView {
    pub name: Seq<char>,
    pub index: nat,
    pub cidr: Seq<char>,
}

impl View for SubnetMetadata {
    type V = MetadataView;

    open spec fn view(&self) -> MetadataView {
        MetadataView { name: self.name@, index: self.index as nat, cidr: self.cidr@ }
    }
}

/// The manifest that the subnets were derived from.
impl View for Subnets {
    type V = Manifest;

    closed spec fn view(&self) -> Manifest {
        lists(self.node_subnets)
    }
}

/// Writes the block of addresses whose second octet is the index.
fn cidr_block_text(index: usize) -> (cidr: CidrBlock)
    ensures
        cidr@ == cidr_block(index as nat),
{
    let mut cidr = "172.".to_owned();
    cidr.append(decimal_text(index).as_str());
    cidr.append(".0.0/16");
    cidr
}

impl Subnets {
    /// The entries of the metadata that is kept.
    pub closed spec fn meta_entries(&self) -> Seq<(Seq<char>, MetadataView)> {
        metadata(self.subnets_meta)
    }

    /// The entries of the nodes that are kept for the subnets.
    pub closed spec fn node_entries(&self) -> Seq<(Seq<char>, Seq<Seq<char>>)> {
        lists(self.subnet_nodes)
    }

    /// The subnets, their nodes and their metadata are those of the manifest,
    /// and no two nodes of the manifest have the same name.
    #[verifier::type_invariant]
    spec fn wf(self) -> bool {
        &&& keys(self@).no_duplicates()
        &&& lists(self.subnet_nodes) == nodes_by_subnet(self@)
        &&& metadata(self.subnets_meta) == subnet_metadata(self@)
    }

    /// Build a `Subnets` object from the manifest's node definitions.
    ///
    /// Assigns each subnet a unique index (second octet starting at
    /// [`SUBNET_INDEX_BASE`]) and computes CIDR blocks.
    pub fn new(node_subnets: &IndexMap<NodeName, Vec<SubnetName>>) -> (subnets: Self)
        ensures
            subnets@ == lists(*node_subnets),
            keys(subnets@).no_duplicates(),
            subnets.node_entries() == nodes_by_subnet(lists(*node_subnets)),
            subnets.meta_entries() == subnet_metadata(lists(*node_subnets)),
    {
        let nodes = lists_iter(node_subnets);
        let subnet_nodes = group_by_subnet(&nodes);
        let subnets_meta = number_subnets(&subnet_nodes);
        proof {
            lemma_grouped_keys(mentions(lists(*node_subnets)));
        }
        Subnets { subnets_meta, subnet_nodes, node_subnets: lists_clone(node_subnets) }
    }

    /// Whether no subnets are defined.
    pub fn is_empty(&self) -> (empty: bool)
        ensures
            empty == (subnet_order(self@).len() == 0),
            empty == !(exists|s: Seq<char>| #[trigger] is_subnet(self@, s)),
            empty == (forall|n: int| 0 <= n < self@.len() ==> (#[trigger] self@[n]).1.len() == 0),
    {
        proof {
            use_type_invariant(self);
            lemma_subnet_order(self@);
            if subnet_order(self@).len() > 0 {
                assert(subnet_order(self@).contains(subnet_order(self@)[0]));
            }
            assert forall|s: Seq<char>| #[trigger] is_subnet(self@, s) implies subnet_order(
                self@,
            ).len() > 0 by {
                assert(subnet_order(self@).contains(s));
            }
            assert forall|n: int| 0 <= n < self@.len() && subnet_order(self@).len() == 0 implies (
            #[trigger] self@[n]).1.len() == 0 by {
                if self@[n].1.len() > 0 {
                    assert(self@[n].1.contains(self@[n].1[0]));
                    assert(is_subnet(self@, self@[n].1[0]));
                }
            }
        }
        metadata_is_empty(&self.subnets_meta)
    }

    /// CIDR map for the compose template (subnet name -> CIDR block).
    pub fn cidr_map(&self) -> (cidrs: IndexMap<SubnetName, CidrBlock>)
        ensures
            texts(cidrs) == cidr_blocks(self@),
    {
        proof {
            use_type_invariant(self);
            lemma_subnet_order(self@);
        }
        let subnets = metadata_iter(&self.subnets_meta);
        let mut items: Vec<(SubnetName, CidrBlock)> = Vec::new();
        assert(borrowed_metadata(subnets@).len() == subnet_metadata(self@).len());
        for i in 0..subnets.len()
            invariant
                subnets@.len() == subnet_order(self@).len(),
                borrowed_metadata(subnets@) == subnet_metadata(self@),
                owned_texts(items@) == cidr_blocks(self@).take(i as int),
        {
            let (name, meta) = subnets[i];
            let ghost before = owned_texts(items@);
            items.push((name.clone(), meta.cidr.clone()));
            proof {
                assert(borrowed_metadata(subnets@)[i as int] == subnet_metadata(self@)[i as int]);
                assert(owned_texts(items@) =~= before.push(cidr_blocks(self@)[i as int]));
            }
        }
        proof {
            assert(owned_texts(items@) =~= cidr_blocks(self@));
            assert(keys(owned_texts(items@)) =~= subnet_order(self@));
        }
        texts_from_iter(items)
    }

    /// The subnet indexes for a given node, as `(SubnetName, index)` pairs.
    ///
    /// The index is the second octet used when building private IP addresses.
    /// A node that the manifest does not have gets none.
    pub fn subnet_indexes_for(&self, node: &str) -> (indexes: Vec<(SubnetName, usize)>)
        ensures
            index_pairs(indexes@) == indexes_listed(self@, node@),
            forall|n: int|
                0 <= n < self@.len() && (#[trigger] self@[n]).0 == node@ ==> {
                    &&& indexes@.len() == self@[n].1.len()
                    &&& forall|i: int|
                        0 <= i < indexes@.len() ==> (#[trigger] indexes@[i]).0@ == self@[n].1[i]
                            && indexes@[i].1 == value(
                            subnet_metadata(self@),
                            self@[n].1[i],
                        ).index
                },
    {
        proof {
            use_type_invariant(self);
            lemma_subnet_order(self@);
        }
        let mut indexes: Vec<(SubnetName, usize)> = Vec::new();
        if let Some(subnet_names) = lists_get(&self.node_subnets, node) {
            for i in 0..subnet_names.len()
                invariant
                    self.wf(),
                    has_key(self@, node@),
                    names(subnet_names@) == value(self@, node@),
                    index_pairs(indexes@) == indexes_listed(self@, node@).take(i as int),
            {
                let name = &subnet_names[i];
                let ghost before = index_pairs(indexes@);
                proof {
                    lemma_has_key(self@, node@);
                    assert(names(subnet_names@)[i as int] == name@);
                    self.lemma_index(name@);
                }
                if let Some(meta) = metadata_get(&self.subnets_meta, name.as_str()) {
                    indexes.push((name.clone(), meta.index));
                }
                assert(index_pairs(indexes@) =~= before.push(
                    indexes_listed(self@, node@)[i as int],
                ));
            }
        }
        assert(index_pairs(indexes@) =~= indexes_listed(self@, node@));
        proof {
            assert forall|n: int| 0 <= n < self@.len() && (#[trigger] self@[n]).0 == node@ implies {
                &&& indexes@.len() == self@[n].1.len()
                &&& forall|i: int|
                    0 <= i < indexes@.len() ==> (#[trigger] indexes@[i]).0@ == self@[n].1[i]
                        && indexes@[i].1 == value(subnet_metadata(self@), self@[n].1[i]).index
            } by {
                lemma_position(self@, n);
                assert(index_pairs(indexes@).len() == self@[n].1.len());
                assert forall|i: int| 0 <= i < indexes@.len() implies (#[trigger] indexes@[i]).0@
                    == self@[n].1[i] && indexes@[i].1 == value(
                    subnet_metadata(self@),
                    self@[n].1[i],
                ).index by {
                    assert(self@[n].1.contains(self@[n].1[i]));
                    self.lemma_index(self@[n].1[i]);
                    assert(index_pairs(indexes@)[i] == (indexes@[i].0@, indexes@[i].1 as nat));
                }
            }
        }
        indexes
    }

    /// The metadata of a subnet that some node lists holds its index.
    proof fn lemma_index(self, subnet: Seq<char>)
        requires
            self.wf(),
            is_subnet(self@, subnet),
        ensures
            has_key(metadata(self.subnets_meta), subnet),
            value(metadata(self.subnets_meta), subnet).index == subnet_index(self@, subnet),
    {
        let entries = metadata(self.subnets_meta);
        lemma_subnet_order(self@);
        assert(keys(entries) =~= subnet_order(self@));
        assert(subnet_order(self@).contains(subnet));
        lemma_has_key(entries, subnet);
    }

    /// Whether the manifest has a node of this name.
    pub fn contains_node(&self, node: &str) -> (found: bool)
        ensures
            found == has_key(self@, node@),
            found == (exists|n: int| 0 <= n < self@.len() && (#[trigger] self@[n]).0 == node@),
    {
        proof {
            use_type_invariant(self);
            if has_key(self@, node@) {
                lemma_has_key(self@, node@);
            }
            assert forall|n: int| 0 <= n < self@.len() && (#[trigger] self@[n]).0
                == node@ implies has_key(self@, node@) by {
                lemma_position(self@, n);
            }
        }
        lists_get(&self.node_subnets, node).is_some()
    }

    /// Subnet names shared between two nodes, in the order in which the first
    /// lists them.
    pub fn shared_subnets(&self, node_a: &str, node_b: &str) -> (shared: Vec<SubnetName>)
        requires
            has_key(self@, node_a@),
            has_key(self@, node_b@),
        ensures
            names(shared@) == subnets_shared(self@, node_a@, node_b@),
    {
        let mut shared: Vec<SubnetName> = Vec::new();
        if let Some(a_subnets) = lists_get(&self.node_subnets, node_a) {
            if let Some(b_subnets) = lists_get(&self.node_subnets, node_b) {
                let ghost in_b = |s: Seq<char>| subnets_listed(self@, node_b@).contains(s);
                let ghost listed = names(a_subnets@);
                assert(names(shared@) =~= listed.take(0).filter(in_b)) by {
                    reveal(Seq::filter);
                }
                for i in 0..a_subnets.len()
                    invariant
                        listed == names(a_subnets@),
                        in_b == (|s: Seq<char>| names(b_subnets@).contains(s)),
                        names(shared@) == listed.take(i as int).filter(in_b),
                {
                    let ghost before = names(shared@);
                    if contains(b_subnets, &a_subnets[i]) {
                        shared.push(a_subnets[i].clone());
                        assert(names(shared@) =~= before.push(a_subnets@[i as int]@));
                    }
                    proof {
                        reveal(Seq::filter);
                        assert(listed.take(i + 1).drop_last() =~= listed.take(i as int));
                    }
                }
                assert(listed.take(a_subnets@.len() as int) =~= listed);
            }
        }
        shared
    }

    /// Subnets a node is connected to.
    pub fn subnets_of(&self, node: &str) -> (subnets: Vec<SubnetName>)
        requires
            has_key(self@, node@),
        ensures
            names(subnets@) == subnets_listed(self@, node@),
            forall|n: int|
                0 <= n < self@.len() && (#[trigger] self@[n]).0 == node@ ==> {
                    &&& subnets@.len() == self@[n].1.len()
                    &&& forall|i: int|
                        0 <= i < subnets@.len() ==> (#[trigger] subnets@[i])@ == self@[n].1[i]
                },
    {
        proof {
            use_type_invariant(self);
        }
        let mut subnets: Vec<SubnetName> = Vec::new();
        if let Some(listed) = lists_get(&self.node_subnets, node) {
            for i in 0..listed.len()
                invariant
                    names(subnets@) == names(listed@).take(i as int),
            {
                let ghost before = names(subnets@);
                subnets.push(listed[i].clone());
                assert(names(subnets@) =~= before.push(names(listed@)[i as int]));
            }
            assert(names(listed@).take(listed@.len() as int) =~= names(listed@));
        }
        proof {
            assert forall|n: int| 0 <= n < self@.len() && (#[trigger] self@[n]).0 == node@ implies {
                &&& subnets@.len() == self@[n].1.len()
                &&& forall|i: int|
                    0 <= i < subnets@.len() ==> (#[trigger] subnets@[i])@ == self@[n].1[i]
            } by {
                lemma_position(self@, n);
                assert(names(subnets@) == self@[n].1);
                assert forall|i: int| 0 <= i < subnets@.len() implies (#[trigger] subnets@[i])@
                    == self@[n].1[i] by {
                    assert(names(subnets@)[i] == subnets@[i]@);
                }
            }
        }
        subnets
    }

    /// Validates that the network topology forms a connected graph.
    ///
    /// Uses a Union-Find-like approach: starts with each subnet as a separate
    /// component, then iteratively merges subnets that share a bridge node (a
    /// node belonging to multiple subnets). If all subnets collapse into a
    /// single component, the network is connected; otherwise, it is disconnected
    /// and the components that are left are returned.
    pub fn validate_topology(&self) -> (result: Result<(), DisconnectedTopology>)
        ensures
            result is Ok <==> connected(self@),
            result matches Err(e) ==> lists(e.components) == components(self@),
    {
        proof {
            use_type_invariant(self);
            lemma_connected_components(self@);
        }
        if metadata_len(&self.subnets_meta) <= 1 {
            proof {
                lemma_few_subnets_connected(self@);
            }
            return Ok(());
        }
        let ghost start = Merging::start(self@);
        let mut merger = Merger::new(lists_clone(&self.subnet_nodes), Ghost(self@));
        let nodes = lists_iter(&self.node_subnets);
        proof {
            lemma_start_valid(self@);
            assert(self@.take(0) =~= Seq::empty());
        }
        for i in 0..nodes.len()
            invariant
                borrowed_lists(nodes@) == self@,
                start == Merging::start(self@),
                merger.inv(),
                merger.stage().valid(self@),
                merger.stage() == start.merge_nodes(self@.take(i as int)),
        {
            let (_, subnets) = nodes[i];
            let ghost before = merger.stage();
            let ghost listed = names(subnets@);
            assert(listed == self@[i as int].1) by {
                assert(borrowed_lists(nodes@)[i as int] == self@[i as int]);
            }
            if subnets.len() > 1 {
                let first_subnet = &subnets[0];
                assert(listed.take(1).len() <= 1);
                for j in 1..subnets.len()
                    invariant
                        0 <= i < self@.len(),
                        subnets@.len() > 1,
                        first_subnet@ == subnets@[0]@,
                        listed == names(subnets@),
                        listed == self@[i as int].1,
                        merger.inv(),
                        merger.stage().valid(self@),
                        merger.stage() == before.merge_list(listed.take(j as int)),
                {
                    let subnet = &subnets[j];
                    proof {
                        assert(listed[0] == first_subnet@ && listed[j as int] == subnet@);
                        assert(linked(self@, first_subnet@, subnet@));
                        assert(listed.take(j + 1).drop_last() =~= listed.take(j as int));
                    }
                    merger.merge(first_subnet, subnet, Ghost(self@));
                }
            }
            proof {
                assert(listed.take(listed.len() as int) =~= listed);
                assert(self@.take(i + 1).drop_last() =~= self@.take(i as int));
            }
        }
        assert(self@.take(nodes@.len() as int) =~= self@);
        let components = merger.into_working_map();
        if lists_len(&components) > 1 {
            return Err(DisconnectedTopology { components });
        }
        Ok(())
    }

    /// The metadata of each subnet, in the order of first appearance.
    pub fn subnets_meta(&self) -> (subnets_meta: &IndexMap<SubnetName, SubnetMetadata>)
        ensures
            metadata(*subnets_meta) == self.meta_entries(),
            self.meta_entries() == subnet_metadata(self@),
    {
        proof {
            use_type_invariant(self);
        }
        &self.subnets_meta
    }

    /// The nodes of each subnet, in the order of first appearance.
    pub fn subnet_nodes(&self) -> (subnet_nodes: &IndexMap<SubnetName, Vec<NodeName>>)
        ensures
            lists(*subnet_nodes) == self.node_entries(),
            self.node_entries() == nodes_by_subnet(self@),
    {
        proof {
            use_type_invariant(self);
        }
        &self.subnet_nodes
    }

    /// The subnets of each node, in the order of the manifest.
    pub fn node_subnets(&self) -> (node_subnets: &IndexMap<NodeName, Vec<SubnetName>>)
        ensures
            lists(*node_subnets) == self@,
            keys(self@).no_duplicates(),
    {
        proof {
            use_type_invariant(self);
        }
        &self.node_subnets
    }
}

impl Clone for Subnets {
    fn clone(&self) -> (copy: Self)
        ensures
            copy@ == self@,
            copy.node_entries() == self.node_entries(),
            copy.meta_entries() == self.meta_entries(),
    {
        proof {
            use_type_invariant(self);
            lemma_grouped_keys(mentions(self@));
        }
        Subnets {
            subnets_meta: number_subnets(&self.subnet_nodes),
            subnet_nodes: lists_clone(&self.subnet_nodes),
            node_subnets: lists_clone(&self.node_subnets),
        }
    }
}

impl Default for Subnets {
    /// The subnets of a manifest without nodes.
    fn default() -> (subnets: Self)
        ensures
            subnets@ == Seq::<(Seq<char>, Seq<Seq<char>>)>::empty(),
    {
        Subnets::new(&lists_new())
    }
}

/// A network whose subnets are not all connected.
#[derive(Debug, PartialEq)]
pub struct DisconnectedTopology {
    /// The components of the network, each under one of its subnets and with
    /// its nodes.
    pub components: IndexMap<SubnetName, Vec<NodeName>>,
}

impl DisconnectedTopology {
    /// Says what is wrong with the network.
    pub fn message(&self) -> (text: String)
        ensures
            text@ == "Network topology is disconnected: "@ + debug_text(lists(self.components)),
    {
        let mut text = "Network topology is disconnected: ".to_owned();
        text.append(lists_debug(&self.components).as_str());
        text
    }
}

/// Names with indexes, as texts and numbers.
pub open spec fn index_pairs(indexes: Seq<(SubnetName, usize)>) -> Seq<(Seq<char>, nat)> {
    indexes.map_values(|p: (SubnetName, usize)| (p.0@, p.1 as nat))
}

/// Whether the name is in the list.
fn contains(list: &Vec<String>, name: &String) -> (found: bool)
    ensures
        found == names(list@).contains(name@),
{
    for i in 0..list.len()
        invariant
            forall|j: int| 0 <= j < i ==> names(list@)[j] != name@,
    {
        if list[i] == *name {
            assert(names(list@)[i as int] == name@);
            return true;
        }
    }
    false
}

/// Collects the nodes of each subnet.
fn group_by_subnet(nodes: &Vec<(&NodeName, &Vec<SubnetName>)>) -> (subnet_nodes: IndexMap<
    SubnetName,
    Vec<NodeName>,
>)
    ensures
        lists(subnet_nodes) == grouped(mentions(borrowed_lists(nodes@))),
{
    let ghost manifest = borrowed_lists(nodes@);
    let mut subnet_nodes = lists_new();
    assert(lists(subnet_nodes) =~= grouped(mentions(manifest.take(0))));
    for i in 0..nodes.len()
        invariant
            manifest == borrowed_lists(nodes@),
            lists(subnet_nodes) == grouped(mentions(manifest.take(i as int))),
    {
        let (node_name, subnets) = nodes[i];
        let ghost before = mentions(manifest.take(i as int));
        assert(before + mentions_by(node_name@, names(subnets@).take(0)) =~= before);
        for j in 0..subnets.len()
            invariant
                lists(subnet_nodes) == grouped(
                    before + mentions_by(node_name@, names(subnets@).take(j as int)),
                ),
        {
            let ghost mentioned = before + mentions_by(node_name@, names(subnets@).take(j as int));
            let list = lists_entry_or_default(&mut subnet_nodes, subnets[j].clone());
            let ghost listed = names(list@);
            list.push(node_name.clone());
            proof {
                assert(names(list@) =~= listed.push(node_name@));
                lemma_grouped_push(mentioned, subnets@[j as int]@, node_name@);
                assert(mentioned.push((subnets@[j as int]@, node_name@)) =~= before + mentions_by(
                    node_name@,
                    names(subnets@).take(j + 1),
                ));
            }
        }
        proof {
            assert(names(subnets@).take(subnets@.len() as int) =~= names(subnets@));
            assert(manifest.take(i + 1).drop_last() =~= manifest.take(i as int));
        }
    }
    assert(manifest.take(nodes@.len() as int) =~= manifest);
    subnet_nodes
}

/// Gives each subnet its metadata.
fn number_subnets(subnet_nodes: &IndexMap<SubnetName, Vec<NodeName>>) -> (subnets_meta: IndexMap<
    SubnetName,
    SubnetMetadata,
>)
    ensures
        metadata(subnets_meta) == numbered(keys(lists(*subnet_nodes))),
{
    let ghost order = keys(lists(*subnet_nodes));
    let count = lists_len(subnet_nodes);
    let subnets = lists_iter(subnet_nodes);
    let mut items: Vec<(SubnetName, SubnetMetadata)> = Vec::new();
    for position in 0..count
        invariant
            count <= isize::MAX,
            count == subnets@.len(),
            order == keys(borrowed_lists(subnets@)),
            owned_metadata(items@) == numbered(order).take(position as int),
    {
        let name = subnets[position].0;
        let index = position + SUBNET_INDEX_BASE;
        let ghost before = owned_metadata(items@);
        items.push(
            (
                name.clone(),
                SubnetMetadata { name: name.clone(), index, cidr: cidr_block_text(index) },
            ),
        );
        assert(order[position as int] == name@);
        assert(owned_metadata(items@) =~= before.push(numbered(order)[position as int]));
    }
    assert(owned_metadata(items@) =~= numbered(order));
    assert(keys(owned_metadata(items@)) =~= order);
    metadata_from_iter(items)
}

} // verus!
