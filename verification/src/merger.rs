//! Merges the components of a network, as a union-find structure does.
use indexmap::IndexMap;
use vstd::hash_map::StringHashMap;
use vstd::prelude::*;

use crate::entries::{has_key, lemma_swap_removed};
use crate::index_map::{lists, lists_get_mut, lists_swap_remove};
use crate::manifest::{is_subnet, Manifest};
use crate::node::{names, NodeName, SubnetName};
use crate::topology::{lemma_merge_valid, linked, Merging};

verus! {

/// Components that are being merged.
pub(crate) struct Merger {
    /// The components that are left, each under its leading subnet.
    working_map: IndexMap<SubnetName, Vec<NodeName>>,
    /// The subnets that lead no component any more, each with the leader of
    /// the component that absorbed its own.
    removed_subnets: StringHashMap<SubnetName>,
    /// How far the components have been merged.
    stage: Ghost<Merging>,
    /// The removed subnets, in the order in which they were removed.
    removals: Ghost<Seq<Seq<char>>>,
}

impl Merger {
    /// How far the components have been merged.
    pub(crate) closed spec fn stage(self) -> Merging {
        self.stage@
    }

    /// The fields agree, and the way from a removed subnet only leads to
    /// subnets that were removed later or not at all.
    pub(crate) closed spec fn inv(self) -> bool {
        let leader = self.stage@.leader;
        let removed = self.removed_subnets@;
        let removals = self.removals@;
        &&& lists(self.working_map) == self.stage@.components
        &&& forall|s: Seq<char>| #[trigger] removed.contains_key(s) <==> leader(s) != s
        &&& forall|s: Seq<char>| #[trigger]
            removed.contains_key(s) ==> leader(removed[s]@) == leader(s)
        &&& forall|s: Seq<char>| #[trigger] removed.contains_key(s) <==> removals.contains(s)
        &&& forall|i: int, j: int|
            0 <= j <= i < removals.len() ==> removed[#[trigger] removals[i]]@
                != #[trigger] removals[j]
    }

    /// How many steps the way from a subnet to its leader can take at most.
    spec fn steps(self, subnet: Seq<char>) -> int {
        if self.removals@.contains(subnet) {
            self.removals@.len() - self.removals@.index_of(subnet)
        } else {
            0
        }
    }

    /// Every subnet is a component of its own.
    pub(crate) fn new(
        subnet_nodes: IndexMap<SubnetName, Vec<NodeName>>,
        Ghost(manifest): Ghost<Manifest>,
    ) -> (merger: Self)
        requires
            lists(subnet_nodes) == Merging::start(manifest).components,
        ensures
            merger.inv(),
            merger.stage() == Merging::start(manifest),
    {
        Merger {
            working_map: subnet_nodes,
            removed_subnets: StringHashMap::new(),
            stage: Ghost(Merging::start(manifest)),
            removals: Ghost(Seq::empty()),
        }
    }

    /// The components that are left.
    pub(crate) fn into_working_map(self) -> (working_map: IndexMap<SubnetName, Vec<NodeName>>)
        requires
            self.inv(),
        ensures
            lists(working_map) == self.stage().components,
    {
        self.working_map
    }

    /// The leader of the component that the subnet belongs to.
    fn find_destination(&self, subnet: &str) -> (destination: String)
        requires
            self.inv(),
        ensures
            destination@ == (self.stage().leader)(subnet@),
    {
        let mut current = subnet.to_owned();
        loop
            invariant
                self.inv(),
                (self.stage().leader)(current@) == (self.stage().leader)(subnet@),
            ensures
                !self.removed_subnets@.contains_key(current@),
            decreases self.steps(current@),
        {
            match self.removed_subnets.get(current.as_str()) {
                Some(dest) => {
                    proof {
                        let removals = self.removals@;
                        assert(removals.contains(current@));
                        let p = removals.index_of(current@);
                        assert(removals[p] == current@);
                        if removals.contains(dest@) {
                            let q = removals.index_of(dest@);
                            assert(removals[q] == dest@);
                            assert(p < q);
                        }
                    }
                    current = dest.clone();
                },
                None => {
                    break;
                },
            }
        }
        current
    }

    /// Makes the component that `from` leads part of the one that `into` leads.
    fn absorb(&mut self, from: &String, into: &String, Ghost(manifest): Ghost<Manifest>)
        requires
            old(self).inv(),
            old(self).stage().valid(manifest),
            has_key(old(self).stage().components, from@),
            has_key(old(self).stage().components, into@),
            from@ != into@,
        ensures
            final(self).inv(),
            final(self).stage() == old(self).stage().absorb(from@, into@),
    {
        proof {
            lemma_swap_removed(self.stage@.components, from@);
        }
        if let Some(mut from_nodes) = lists_swap_remove(&mut self.working_map, from.as_str()) {
            let ghost moved = names(from_nodes@);
            self.removed_subnets.insert(from.clone(), into.clone());
            if let Some(into_nodes) = lists_get_mut(&mut self.working_map, into.as_str()) {
                let ghost kept = names(into_nodes@);
                into_nodes.append(&mut from_nodes);
                assert(names(into_nodes@) =~= kept + moved);
            }
        }
        proof {
            let before = *old(self);
            let removals = self.removals@;
            self.stage@ = self.stage@.absorb(from@, into@);
            self.removals@ = removals.push(from@);
            let leader = self.stage@.leader;
            assert((before.stage@.leader)(from@) == from@);
            assert((before.stage@.leader)(into@) == into@);
            assert forall|s: Seq<char>| #[trigger]
                self.removed_subnets@.contains_key(s) <==> leader(s) != s by {
                assert(before.removed_subnets@.contains_key(s) <==> (before.stage@.leader)(s) != s);
            }
            assert forall|s: Seq<char>| #[trigger]
                self.removed_subnets@.contains_key(s) <==> self.removals@.contains(s) by {
                assert(before.removed_subnets@.contains_key(s) <==> removals.contains(s));
                if removals.contains(s) {
                    let i = choose|i: int| 0 <= i < removals.len() && removals[i] == s;
                    assert(self.removals@[i] == s);
                }
                if s == from@ {
                    assert(self.removals@[removals.len() as int] == s);
                }
            }
            assert(!before.removed_subnets@.contains_key(from@));
            assert(!before.removed_subnets@.contains_key(into@));
            assert forall|i: int, j: int| 0 <= j <= i < self.removals@.len() implies
                self.removed_subnets@[#[trigger] self.removals@[i]]@
                != #[trigger] self.removals@[j] by {
                if i < removals.len() {
                    assert(before.removed_subnets@[removals[i]]@ != removals[j]);
                    assert(removals.contains(removals[i]));
                } else if j < removals.len() {
                    assert(removals.contains(removals[j]));
                }
            }
        }
    }

    /// Makes the components of two subnets that one node lists into one.
    pub(crate) fn merge(
        &mut self,
        first: &String,
        subnet: &String,
        Ghost(manifest): Ghost<Manifest>,
    )
        requires
            old(self).inv(),
            old(self).stage().valid(manifest),
            linked(manifest, first@, subnet@),
        ensures
            final(self).inv(),
            final(self).stage() == old(self).stage().merge(first@, subnet@),
            final(self).stage().valid(manifest),
    {
        proof {
            lemma_merge_valid(self.stage@, manifest, first@, subnet@);
            assert(is_subnet(manifest, first@) && is_subnet(manifest, subnet@));
        }
        let first_dest = self.find_destination(first.as_str());
        let subnet_dest = self.find_destination(subnet.as_str());
        if first_dest == subnet_dest {
            return ;
        }
        if *subnet == subnet_dest {
            self.absorb(subnet, &first_dest, Ghost(manifest));
        } else {
            self.absorb(&first_dest, &subnet_dest, Ghost(manifest));
        }
    }
}

} // verus!
