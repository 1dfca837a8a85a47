//! The share of a guest's memory on each NUMA node.

use vstd::prelude::*;
use crate::float;
use crate::float::Float;
use crate::model;
use crate::rates;
use crate::samples;
use crate::sort;
use crate::sort::{Ranked, Sortable};
use crate::text;
use crate::topology;

verus! {

/// The ascending order of numbers.
#[derive(Debug, Clone, Copy)]
pub struct Ascending;

impl Ranked<Ascending> for u32 {
    open spec fn rank(self, by: Ascending) -> int {
        -(self as int)
    }
}

impl Sortable<Ascending> for u32 {
    fn rank_of(&self, by: Ascending) -> (r: i128) {
        -(*self as i128)
    }
}

/// Whether `r` lists the nodes that the tokens mention, in ascending order, each with its share of
/// all pages in percent. Where there are no pages at all, no node is listed.
pub open spec fn is_placement(r: Seq<(u32, float::Dyadic)>, tokens: Seq<Seq<char>>) -> bool {
    if topology::pages_total(tokens) == 0 {
        r.len() == 0
    } else {
        &&& forall|i: int, j: int| 0 <= i < j < r.len() ==> r[i].0 < r[j].0
        &&& forall|node: u32|
            topology::mentioned(tokens, node) <==> exists|i: int|
                0 <= i < r.len() && #[trigger] r[i].0 == node
        &&& forall|i: int|
            0 <= i < r.len() ==> (#[trigger] r[i]).1 == rates::share(
                topology::pages_on(tokens, r[i].0) as u64,
                topology::pages_total(tokens) as u64,
            )
    }
}

/// The share of a guest's pages on each node, from the content of `/proc/[pid]/numa_maps`. The sum
/// of all pages has to fit; see [`topology::numa_pages`].
pub fn memory_shares(content: &str) -> (r: Vec<(u32, Float)>)
    requires
        topology::pages_total(text::words_of(content@)) <= u64::MAX,
    ensures
        is_placement(model::shares(r@), text::words_of(content@)),
{
    broadcast use vstd::std_specs::hash::group_hash_axioms;

    let ghost tokens = text::words_of(content@);
    let total: u64 = match topology::numa_pages(content) {
        Some(total) => total,
        None => 0,
    };
    let mut out: Vec<(u32, Float)> = Vec::new();
    if total == 0 {
        return out;
    }
    proof {
        assert forall|node: u32| #[trigger] topology::pages_on(tokens, node) <= u64::MAX by {
            topology::law_node_within_total(tokens, node);
        }
    }
    let totals = topology::sum_numa_maps_by_node(content);
    let mut nodes = samples::keys_of(&totals);
    let ghost found = nodes@;
    sort::sort_descending(&mut nodes, Ascending);
    proof {
        assert(sort::views(found) =~= found);
        assert(sort::views(nodes@) =~= nodes@);
        lemma_strictly_ascending(nodes@, found);
        assert forall|node: u32| topology::mentioned(tokens, node) <==> #[trigger] nodes@.contains(
            node,
        ) by {
            assert(found.to_set().contains(node) <==> found.contains(node));
            assert(totals@.dom().contains(node) <==> topology::mentioned(tokens, node));
        }
    }
    let mut i: usize = 0;
    while i < nodes.len()
        invariant
            i <= nodes@.len(),
            out@.len() == i,
            total == topology::pages_total(tokens),
            total > 0,
            totals@ == topology::pages_by_node(tokens),
            forall|node: u32|
                topology::mentioned(tokens, node) <==> #[trigger] nodes@.contains(node),
            forall|j: int|
                0 <= j < i ==> (#[trigger] out@[j]).0 == nodes@[j] && out@[j].1@ == rates::share(
                    topology::pages_on(tokens, nodes@[j]) as u64,
                    total,
                ),
        decreases nodes@.len() - i,
    {
        let node = nodes[i];
        assert(nodes@.contains(nodes@[i as int]));
        let pages: u64 = match totals.get(&node) {
            Some(pages) => *pages,
            None => 0,
        };
        out.push((node, rates::percent(pages, total)));
        i += 1;
    }
    proof {
        let r = model::shares(out@);
        assert forall|k: int| 0 <= k < r.len() implies #[trigger] r[k] == (out@[k].0, out@[k].1@) by {}
        assert forall|node: u32|
            topology::mentioned(tokens, node) <==> exists|k: int|
                0 <= k < r.len() && #[trigger] r[k].0 == node by {
            if topology::mentioned(tokens, node) {
                assert(nodes@.contains(node));
                let k = choose|k: int| 0 <= k < nodes@.len() && nodes@[k] == node;
                assert(r[k].0 == node);
            }
            if exists|k: int| 0 <= k < r.len() && #[trigger] r[k].0 == node {
                let k = choose|k: int| 0 <= k < r.len() && #[trigger] r[k].0 == node;
                assert(nodes@[k] == node);
                assert(nodes@.contains(node));
            }
        }
    }
    out
}

/// Sorting what has no duplicates gives a strictly ascending sequence of the same numbers.
proof fn lemma_strictly_ascending(r: Seq<u32>, s: Seq<u32>)
    requires
        sort::is_sort_of(r, s, Ascending),
        s.no_duplicates(),
    ensures
        forall|i: int, j: int| 0 <= i < j < r.len() ==> r[i] < r[j],
        forall|n: u32| #[trigger] r.contains(n) <==> s.contains(n),
{
    broadcast use vstd::seq_lib::group_to_multiset_ensures;

    s.lemma_multiset_has_no_duplicates();
    r.lemma_multiset_has_no_duplicates_conv();
    assert forall|i: int, j: int| 0 <= i < j < r.len() implies r[i] < r[j] by {
        assert(r[i].rank(Ascending) >= r[j].rank(Ascending));
        assert(r[i] != r[j]);
    }
    assert forall|n: u32| #[trigger] r.contains(n) <==> s.contains(n) by {
        assert(r.contains(n) <==> r.to_multiset().count(n) > 0);
        assert(s.contains(n) <==> s.to_multiset().count(n) > 0);
    }
}

// ---------------------------------------------------------------------------
// Laws

/// The tokens leave one list of shares only.
pub proof fn law_one_placement_only(
    r1: Seq<(u32, float::Dyadic)>,
    r2: Seq<(u32, float::Dyadic)>,
    tokens: Seq<Seq<char>>,
)
    requires
        is_placement(r1, tokens),
        is_placement(r2, tokens),
    ensures
        r1 == r2,
{
    if topology::pages_total(tokens) > 0 {
        let n1 = r1.map_values(|x: (u32, float::Dyadic)| x.0);
        let n2 = r2.map_values(|x: (u32, float::Dyadic)| x.0);
        assert forall|n: u32| #[trigger] n1.contains(n) <==> n2.contains(n) by {
            lemma_listed(r1, n);
            lemma_listed(r2, n);
            assert(topology::mentioned(tokens, n) <==> n1.contains(n));
            assert(topology::mentioned(tokens, n) <==> n2.contains(n));
        }
        lemma_same_nodes(n1, n2);
        assert forall|i: int| 0 <= i < r1.len() implies r1[i] == r2[i] by {
            assert(n1[i] == n2[i]);
            assert(r1[i].0 == n1[i] && r2[i].0 == n2[i]);
        }
    }
    assert(r1 =~= r2);
}

proof fn lemma_listed(r: Seq<(u32, float::Dyadic)>, n: u32)
    ensures
        r.map_values(|x: (u32, float::Dyadic)| x.0).contains(n) <==> exists|i: int|
            0 <= i < r.len() && #[trigger] r[i].0 == n,
{
    let ns = r.map_values(|x: (u32, float::Dyadic)| x.0);
    if ns.contains(n) {
        let i = choose|i: int| 0 <= i < ns.len() && ns[i] == n;
        assert(r[i].0 == n);
    }
    if exists|i: int| 0 <= i < r.len() && #[trigger] r[i].0 == n {
        let i = choose|i: int| 0 <= i < r.len() && #[trigger] r[i].0 == n;
        assert(ns[i] == n);
    }
}

/// Two strictly ascending sequences of the same numbers are equal.
proof fn lemma_same_nodes(a: Seq<u32>, b: Seq<u32>)
    requires
        forall|i: int, j: int| 0 <= i < j < a.len() ==> a[i] < a[j],
        forall|i: int, j: int| 0 <= i < j < b.len() ==> b[i] < b[j],
        forall|n: u32| #[trigger] a.contains(n) <==> b.contains(n),
    ensures
        a == b,
    decreases a.len(),
{
    if a.len() == 0 {
        if b.len() > 0 {
            assert(b.contains(b[0]));
            assert(a.contains(b[0]));
        }
        assert(a =~= b);
    } else {
        assert(a.contains(a.last()));
        assert(b.contains(a.last()));
        assert(b.len() > 0);
        assert(b.contains(b.last()));
        assert(a.contains(b.last()));
        let i = choose|i: int| 0 <= i < b.len() && b[i] == a.last();
        let j = choose|j: int| 0 <= j < a.len() && a[j] == b.last();
        assert(a.last() == b.last());
        let c = a.drop_last();
        let d = b.drop_last();
        assert forall|n: u32| #[trigger] c.contains(n) <==> d.contains(n) by {
            if c.contains(n) {
                let k = choose|k: int| 0 <= k < c.len() && c[k] == n;
                assert(a[k] == n && a[k] < a.last());
                assert(a.contains(n));
                let m = choose|m: int| 0 <= m < b.len() && b[m] == n;
                assert(m < b.len() - 1);
                assert(d[m] == n);
            }
            if d.contains(n) {
                let k = choose|k: int| 0 <= k < d.len() && d[k] == n;
                assert(b[k] == n && b[k] < b.last());
                assert(b.contains(n));
                assert(a.contains(n));
                let m = choose|m: int| 0 <= m < a.len() && a[m] == n;
                assert(m < a.len() - 1);
                assert(c[m] == n);
            }
        }
        lemma_same_nodes(c, d);
        assert(a =~= c.push(a.last()));
        assert(b =~= d.push(b.last()));
    }
}

/// Where there are pages, each node that is mentioned is listed once, in ascending order, with its part
/// of all pages in percent; no other node is listed. It differs by what single precision loses, which
/// is less than one part in 2 to the power of 22. Where there are no pages, no node is listed.
pub proof fn law_nodes_are_listed_with_their_part(
    r: Seq<(u32, float::Dyadic)>,
    tokens: Seq<Seq<char>>,
    i: int,
    j: int,
    node: u32,
)
    requires
        is_placement(r, tokens),
        topology::pages_total(tokens) <= u64::MAX,
    ensures
        topology::pages_total(tokens) == 0 ==> r.len() == 0,
        0 <= i < j < r.len() ==> r[i].0 < r[j].0,
        topology::pages_total(tokens) > 0 ==> (topology::mentioned(tokens, node) <==> exists|k: int|
            0 <= k < r.len() && #[trigger] r[k].0 == node),
        0 <= i < r.len() ==> {
            let (a, b) = float::at_scale(r[i].1.m, 1, -r[i].1.e);
            float::is_near(
                a * topology::pages_total(tokens),
                (100 * topology::pages_on(tokens, r[i].0)) * b,
                0x40_0000,
            )
        },
{
    if 0 <= i < r.len() {
        let total = topology::pages_total(tokens);
        let part = topology::pages_on(tokens, r[i].0);
        topology::law_node_within_total(tokens, r[i].0);
        rates::law_share_is_the_part_of_the_total(part as u64, total as u64);
    }
}

} // verus!
