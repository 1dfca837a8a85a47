//! The placement of CPUs and memory on the NUMA nodes of the host.

use std::collections::HashMap;
use vstd::prelude::*;
use crate::figures;
use crate::text;
use crate::text::Cut;

verus! {

// ---------------------------------------------------------------------------
// CPU lists

/// The numbers from `start` to `end`, both included.
pub open spec fn range_of(start: u32, end: u32) -> Seq<u32> {
    if start <= end {
        Seq::new((end - start + 1) as nat, |i: int| (start + i) as u32)
    } else {
        Seq::empty()
    }
}

/// The CPUs that one part of a CPU list denotes: a range such as `0-3`, or a single number. Any
/// other part denotes none.
pub open spec fn part_cpus(part: Seq<char>) -> Seq<u32> {
    let p = text::trimmed(part);
    match text::split_once_of(p, '-') {
        Some((a, b)) => match (text::u32_of(text::trimmed(a)), text::u32_of(text::trimmed(b))) {
            (Some(start), Some(end)) => range_of(start, end),
            _ => Seq::empty(),
        },
        None => match text::u32_of(p) {
            Some(n) => seq![n],
            None => Seq::empty(),
        },
    }
}

/// The CPUs that the parts of a CPU list denote, in order.
pub open spec fn cpus_of_parts(parts: Seq<Seq<char>>) -> Seq<u32>
    decreases parts.len(),
{
    if parts.len() == 0 {
        Seq::empty()
    } else {
        cpus_of_parts(parts.drop_last()) + part_cpus(parts.last())
    }
}

/// The CPUs that a CPU list denotes: parts with commas between.
pub open spec fn cpulist(content: Seq<char>) -> Seq<u32> {
    cpus_of_parts(text::pieces_of(content, Cut::At(',')))
}

fn push_range(out: &mut Vec<u32>, start: u32, end: u32)
    ensures
        final(out)@ == old(out)@ + range_of(start, end),
{
    let ghost all = range_of(start, end);
    let ghost before = out@;
    if start > end {
        assert(out@ =~= before + all);
        return;
    }
    let mut n: u32 = start;
    assert(before + all.take(0) =~= before);
    loop
        invariant_except_break
            start <= n <= end,
            all == range_of(start, end),
            out@ == before + all.take(n - start),
        ensures
            out@ == before + all,
        decreases end - n,
    {
        out.push(n);
        proof {
            assert(all[n - start] == n);
            assert(all.take(n - start + 1) =~= all.take(n - start).push(n));
            assert(out@ =~= before + all.take(n - start + 1));
        }
        if n == end {
            assert(all.take(n - start + 1) =~= all);
            break;
        }
        n += 1;
    }
}

/// The CPUs in a CPU list of the kernel, such as `0-3`, `0-3,8-11` or `5`.
pub fn parse_cpulist(content: &str) -> (r: Vec<u32>)
    ensures
        r@ == cpulist(content@),
{
    let c = text::to_chars(content);
    let parts = text::pieces(c.as_slice(), Cut::At(','));
    let ghost all = text::pieces_of(content@, Cut::At(','));
    let mut out: Vec<u32> = Vec::new();
    let mut i: usize = 0;
    while i < parts.len()
        invariant
            i <= parts@.len(),
            all == text::slices(parts@),
            out@ == cpus_of_parts(all.take(i as int)),
        decreases parts@.len() - i,
    {
        let ghost before = out@;
        proof {
            assert(all.take(i + 1).drop_last() == all.take(i as int));
            assert(all.take(i + 1).last() == parts@[i as int]@);
            assert(before + Seq::<u32>::empty() =~= before);
        }
        let part = text::trim(parts[i]);
        match text::split_once(part, '-') {
            Some((a, b)) => {
                match (text::parse_u32(text::trim(a)), text::parse_u32(text::trim(b))) {
                    (Some(start), Some(end)) => push_range(&mut out, start, end),
                    _ => {},
                }
            },
            None => {
                if let Some(n) = text::parse_u32(part) {
                    out.push(n);
                    assert(before + seq![n] =~= before.push(n));
                }
            },
        }
        i += 1;
    }
    assert(all.take(all.len() as int) == all);
    out
}

// ---------------------------------------------------------------------------
// CPU to node

/// An entry of `/sys/devices/system/node`: its name, and the content of the `cpulist` file in it,
/// where that could be read.
pub struct NodeReading {
    pub name: String,
    pub cpulist: Option<String>,
}

impl NodeReading {
    /// The node and its CPUs, if the entry is named `node` and a number and its CPU list could be
    /// read.
    pub open spec fn cpus(self) -> Option<(u32, Seq<u32>)> {
        match text::without_prefix(self.name@, "node"@) {
            Some(number) => match (text::u32_of(number), self.cpulist) {
                (Some(node), Some(content)) => Some((node, cpulist(text::trimmed(content@)))),
                _ => None,
            },
            None => None,
        }
    }
}

/// The map `m`, with all the CPUs placed on `node`.
pub open spec fn placed(m: Map<u32, u32>, cpus: Seq<u32>, node: u32) -> Map<u32, u32> {
    m.union_prefer_right(Map::new(|c: u32| cpus.contains(c), |c: u32| node))
}

/// The node of each CPU. Where several entries list a CPU, the last one counts.
pub open spec fn cpu_to_node(entries: Seq<NodeReading>) -> Map<u32, u32>
    decreases entries.len(),
{
    if entries.len() == 0 {
        Map::empty()
    } else {
        let before = cpu_to_node(entries.drop_last());
        match entries.last().cpus() {
            Some((node, cpus)) => placed(before, cpus, node),
            None => before,
        }
    }
}

/// The NUMA node of each CPU of the host, from the entries of `/sys/devices/system/node`. Without
/// such entries the map is empty.
pub fn build_cpu_to_node_map(entries: &[NodeReading]) -> (r: HashMap<u32, u32>)
    ensures
        r@ == cpu_to_node(entries@),
{
    broadcast use vstd::std_specs::hash::group_hash_axioms;

    let mut map: HashMap<u32, u32> = HashMap::new();
    let mut i: usize = 0;
    while i < entries.len()
        invariant
            i <= entries@.len(),
            map@ == cpu_to_node(entries@.take(i as int)),
        decreases entries@.len() - i,
    {
        let ghost before = map@;
        proof {
            assert(entries@.take(i + 1).drop_last() == entries@.take(i as int));
            assert(entries@.take(i + 1).last() == entries@[i as int]);
        }
        let name = text::to_chars(entries[i].name.as_str());
        if let Some(number) = text::strip_prefix(name.as_slice(), "node") {
            match (text::parse_u32(number), &entries[i].cpulist) {
                (Some(node), Some(content)) => {
                    let c = text::to_chars(content.as_str());
                    let list = text::to_text(text::trim(c.as_slice()));
                    let cpus = parse_cpulist(list.as_str());
                    let mut k: usize = 0;
                    assert(placed(before, cpus@.take(0), node) =~= before);
                    while k < cpus.len()
                        invariant
                            k <= cpus@.len(),
                            map@ == placed(before, cpus@.take(k as int), node),
                        decreases cpus@.len() - k,
                    {
                        map.insert(cpus[k], node);
                        proof {
                            let now = cpus@.take(k as int);
                            let next = cpus@.take(k + 1);
                            assert(next =~= now.push(cpus@[k as int]));
                            assert forall|c: u32| next.contains(c) <==> now.contains(c) || c
                                == cpus@[k as int] by {
                                if now.contains(c) {
                                    let j = choose|j: int| 0 <= j < now.len() && now[j] == c;
                                    assert(next[j] == c);
                                }
                                if c == cpus@[k as int] {
                                    assert(next[k as int] == c);
                                }
                            }
                            assert(map@ =~= placed(before, next, node));
                        }
                        k += 1;
                    }
                    assert(cpus@.take(cpus@.len() as int) =~= cpus@);
                },
                _ => {},
            }
        }
        i += 1;
    }
    assert(entries@.take(entries@.len() as int) =~= entries@);
    map
}

// ---------------------------------------------------------------------------
// Memory placement

/// The node and the number of pages that a token such as `N0=2` of `/proc/[pid]/numa_maps` gives.
pub open spec fn token_pages(token: Seq<char>) -> Option<(u32, u64)> {
    match text::without_prefix(token, seq!['N']) {
        Some(rest) => match text::split_once_of(rest, '=') {
            Some((node, count)) => match (text::u32_of(node), text::u64_of(count)) {
                (Some(node), Some(count)) => Some((node, count)),
                _ => None,
            },
            None => None,
        },
        None => None,
    }
}

/// The number of pages on one node that the tokens add up to.
pub open spec fn pages_on(tokens: Seq<Seq<char>>, node: u32) -> nat
    decreases tokens.len(),
{
    if tokens.len() == 0 {
        0
    } else {
        pages_on(tokens.drop_last(), node) + match token_pages(tokens.last()) {
            Some((n, count)) => if n == node {
                count as nat
            } else {
                0
            },
            None => 0,
        }
    }
}

/// The number of pages on all nodes that the tokens add up to.
pub open spec fn pages_total(tokens: Seq<Seq<char>>) -> nat
    decreases tokens.len(),
{
    if tokens.len() == 0 {
        0
    } else {
        pages_total(tokens.drop_last()) + match token_pages(tokens.last()) {
            Some((_, count)) => count as nat,
            None => 0,
        }
    }
}

/// Whether a token gives pages on the node.
pub open spec fn mentioned(tokens: Seq<Seq<char>>, node: u32) -> bool {
    exists|i: int| 0 <= i < tokens.len() && (#[trigger] token_pages(tokens[i]) matches Some((n, _)) && n == node)
}

/// The number of pages on each node that is mentioned.
pub open spec fn pages_by_node(tokens: Seq<Seq<char>>) -> Map<u32, u64> {
    Map::new(|node: u32| mentioned(tokens, node), |node: u32| pages_on(tokens, node) as u64)
}

proof fn lemma_pages_on_le_total(tokens: Seq<Seq<char>>, node: u32)
    ensures
        pages_on(tokens, node) <= pages_total(tokens),
    decreases tokens.len(),
{
    if tokens.len() > 0 {
        lemma_pages_on_le_total(tokens.drop_last(), node);
    }
}

proof fn lemma_total_grows(tokens: Seq<Seq<char>>, i: int)
    requires
        0 <= i <= tokens.len(),
    ensures
        pages_total(tokens.take(i)) <= pages_total(tokens),
    decreases tokens.len(),
{
    if i < tokens.len() {
        assert(tokens.drop_last().take(i) == tokens.take(i));
        lemma_total_grows(tokens.drop_last(), i);
    } else {
        assert(tokens.take(i) == tokens);
    }
}

proof fn lemma_pages_on_grows(tokens: Seq<Seq<char>>, i: int, node: u32)
    requires
        0 <= i <= tokens.len(),
    ensures
        pages_on(tokens.take(i), node) <= pages_on(tokens, node),
    decreases tokens.len(),
{
    if i < tokens.len() {
        assert(tokens.drop_last().take(i) == tokens.take(i));
        lemma_pages_on_grows(tokens.drop_last(), i, node);
    } else {
        assert(tokens.take(i) == tokens);
    }
}

proof fn lemma_unmentioned(tokens: Seq<Seq<char>>, node: u32)
    requires
        !mentioned(tokens, node),
    ensures
        pages_on(tokens, node) == 0,
    decreases tokens.len(),
{
    if tokens.len() > 0 {
        assert(token_pages(tokens[tokens.len() - 1]) == token_pages(tokens.last()));
        assert(!mentioned(tokens.drop_last(), node)) by {
            if mentioned(tokens.drop_last(), node) {
                let i = choose|i: int|
                    0 <= i < tokens.drop_last().len() && (#[trigger] token_pages(tokens.drop_last()[i]) matches Some((n, _))
                        && n == node);
                assert(token_pages(tokens[i]) == token_pages(tokens.drop_last()[i]));
            }
        }
        lemma_unmentioned(tokens.drop_last(), node);
    }
}

proof fn lemma_mentioned_push(tokens: Seq<Seq<char>>, token: Seq<char>, node: u32)
    ensures
        mentioned(tokens.push(token), node) <==> mentioned(tokens, node) || (token_pages(token) matches Some((n, _)) && n
            == node),
{
    let all = tokens.push(token);
    if mentioned(tokens, node) {
        let i = choose|i: int|
            0 <= i < tokens.len() && (#[trigger] token_pages(tokens[i]) matches Some((n, _)) && n == node);
        assert(all[i] == tokens[i]);
        assert(token_pages(all[i]) is Some);
    }
    assert(all[tokens.len() as int] == token);
    assert(token_pages(all[tokens.len() as int]) == token_pages(token));
    if mentioned(all, node) {
        let i = choose|i: int|
            0 <= i < all.len() && (#[trigger] token_pages(all[i]) matches Some((n, _)) && n == node);
        if i < tokens.len() {
            assert(all[i] == tokens[i]);
            assert(token_pages(tokens[i]) is Some);
        }
    }
}

fn parse_token(token: &[char]) -> (r: Option<(u32, u64)>)
    ensures
        r == token_pages(token@),
{
    proof {
        reveal_strlit("N");
        assert("N"@ =~= seq!['N']);
    }
    match text::strip_prefix(token, "N") {
        Some(rest) => match text::split_once(rest, '=') {
            Some((node, count)) => match (text::parse_u32(node), text::parse_u64(count)) {
                (Some(node), Some(count)) => Some((node, count)),
                _ => None,
            },
            None => None,
        },
        None => None,
    }
}

/// The number of all pages in the content of `/proc/[pid]/numa_maps`, if it fits.
pub fn numa_pages(content: &str) -> (r: Option<u64>)
    ensures
        match r {
            Some(n) => n == pages_total(text::words_of(content@)),
            None => pages_total(text::words_of(content@)) > u64::MAX,
        },
{
    let c = text::to_chars(content);
    let ws = text::words(c.as_slice());
    let ghost all = text::words_of(content@);
    let mut total: u64 = 0;
    let mut i: usize = 0;
    while i < ws.len()
        invariant
            i <= ws@.len(),
            all == text::slices(ws@),
            all == text::words_of(content@),
            total == pages_total(all.take(i as int)),
        decreases ws@.len() - i,
    {
        proof {
            assert(all.take(i + 1).drop_last() == all.take(i as int));
            assert(all.take(i + 1).last() == ws@[i as int]@);
            lemma_total_grows(all, i + 1);
        }
        if let Some((_, count)) = parse_token(ws[i]) {
            match total.checked_add(count) {
                Some(sum) => {
                    total = sum;
                },
                None => {
                    return None;
                },
            }
        }
        i += 1;
    }
    assert(all.take(all.len() as int) == all);
    Some(total)
}

/// Sums the `N<node>=<pages>` tokens of a whole `/proc/[pid]/numa_maps` content, whatever line
/// they stand in: the memory of the guest by far outweighs the code and heap of QEMU itself, so it
/// need not be told apart. The sum of each node's pages has to fit.
pub fn sum_numa_maps_by_node(content: &str) -> (r: HashMap<u32, u64>)
    requires
        forall|node: u32| #[trigger] pages_on(text::words_of(content@), node) <= u64::MAX,
    ensures
        r@ == pages_by_node(text::words_of(content@)),
{
    broadcast use vstd::std_specs::hash::group_hash_axioms;

    let c = text::to_chars(content);
    let ws = text::words(c.as_slice());
    let ghost all = text::words_of(content@);
    let mut totals: HashMap<u32, u64> = HashMap::new();
    let mut i: usize = 0;
    assert(totals@ =~= pages_by_node(all.take(0)));
    while i < ws.len()
        invariant
            i <= ws@.len(),
            all == text::slices(ws@),
            forall|node: u32| #[trigger] pages_on(all, node) <= u64::MAX,
            totals@ == pages_by_node(all.take(i as int)),
        decreases ws@.len() - i,
    {
        let ghost now = all.take(i as int);
        let ghost next = all.take(i + 1);
        proof {
            assert(next.drop_last() == now);
            assert(next =~= now.push(ws@[i as int]@));
            assert(next.last() == ws@[i as int]@);
            assert forall|node: u32| mentioned(next, node) <==> mentioned(now, node) || (token_pages(
                next.last(),
            ) matches Some((n, _)) && n == node) by {
                lemma_mentioned_push(now, next.last(), node);
            }
        }
        match parse_token(ws[i]) {
            Some((node, count)) => {
                let before: u64 = match totals.get(&node) {
                    Some(pages) => *pages,
                    None => 0,
                };
                proof {
                    lemma_pages_on_grows(all, i + 1, node);
                    lemma_pages_on_grows(all, i as int, node);
                    if !mentioned(now, node) {
                        lemma_unmentioned(now, node);
                    }
                }
                totals.insert(node, before + count);
            },
            None => {},
        }
        assert(totals@ =~= pages_by_node(next));
        i += 1;
    }
    assert(all.take(all.len() as int) == all);
    totals
}

// ---------------------------------------------------------------------------
// Laws

/// A CPU list denotes every number between the two ends of a range, in order, and no other.
pub proof fn law_range_is_every_number(start: u32, end: u32, n: u32)
    ensures
        range_of(start, end).contains(n) <==> start <= n <= end,
{
    if start <= n <= end {
        assert(range_of(start, end)[n - start] == n);
    }
}

/// The pages on one node are never more than all pages.
pub proof fn law_node_within_total(tokens: Seq<Seq<char>>, node: u32)
    ensures
        pages_on(tokens, node) <= pages_total(tokens),
{
    lemma_pages_on_le_total(tokens, node);
}

/// The pages of two runs of tokens add up on every node, and a node is mentioned where either run
/// mentions it.
pub proof fn law_pages_add_up(a: Seq<Seq<char>>, b: Seq<Seq<char>>, node: u32)
    ensures
        pages_on(a + b, node) == pages_on(a, node) + pages_on(b, node),
        pages_total(a + b) == pages_total(a) + pages_total(b),
        mentioned(a + b, node) <==> mentioned(a, node) || mentioned(b, node),
    decreases b.len(),
{
    if b.len() == 0 {
        assert(a + b =~= a);
    } else {
        let rest = b.drop_last();
        law_pages_add_up(a, rest, node);
        assert((a + b).drop_last() =~= a + rest);
        assert((a + b).last() == b.last());
        assert(a + b =~= (a + rest).push(b.last()));
        assert(b =~= rest.push(b.last()));
        lemma_mentioned_push(a + rest, b.last(), node);
        lemma_mentioned_push(rest, b.last(), node);
    }
}

/// Two texts joined by a line feed have the nodes of both, each with the sum of its pages in the
/// two, as long as that sum fits.
pub proof fn law_joined_texts_add_up(a: Seq<char>, b: Seq<char>, node: u32)
    ensures
        ({
            let both = text::words_of(a.push('\n') + b);
            let (p, q) = (text::words_of(a), text::words_of(b));
            let sum = pages_on(p, node) + pages_on(q, node);
            &&& both == p + q
            &&& pages_on(both, node) == sum
            &&& pages_by_node(both).contains_key(node) <==> pages_by_node(p).contains_key(node)
                || pages_by_node(q).contains_key(node)
            &&& pages_by_node(both).contains_key(node) ==> pages_by_node(both)[node] == sum as u64
        }),
{
    text::lemma_words_at_space(a, '\n', b);
    law_pages_add_up(text::words_of(a), text::words_of(b), node);
}

/// A text that is a single token gives the pages of this token, if it gives any, and nothing else.
pub proof fn law_one_token_counts_alone(token: Seq<char>)
    requires
        token.len() > 0,
        forall|i: int| 0 <= i < token.len() ==> !text::is_space(#[trigger] token[i]),
    ensures
        pages_by_node(text::words_of(token)) == match token_pages(token) {
            Some((node, count)) => Map::empty().insert(node, count),
            None => Map::empty(),
        },
{
    let tokens = text::words_of(token);
    text::lemma_one_word(token);
    let none = Seq::<Seq<char>>::empty();
    assert(tokens =~= none.push(token));
    assert(tokens.drop_last() =~= none);
    assert forall|node: u32| mentioned(tokens, node) <==> (token_pages(token) matches Some((n, _)) && n
        == node) by {
        lemma_mentioned_push(none, token, node);
    }
    assert forall|node: u32| #[trigger] pages_on(tokens, node) == match token_pages(token) {
        Some((n, count)) => if n == node {
            count as nat
        } else {
            0
        },
        None => 0,
    } by {
        assert(pages_on(none, node) == 0);
    }
    assert(pages_by_node(tokens) =~= match token_pages(token) {
        Some((node, count)) => Map::empty().insert(node, count),
        None => Map::empty(),
    });
}

/// A token gives the node and the number of pages that are written in it.
pub proof fn law_written_tokens_are_read_back(node: u32, count: u64)
    ensures
        token_pages(
            seq!['N'] + figures::decimal(node as nat) + seq!['='] + figures::decimal(count as nat),
        ) == Some((node, count)),
{
    let (n, c) = (figures::decimal(node as nat), figures::decimal(count as nat));
    let rest = n + seq!['='] + c;
    let token = seq!['N'] + n + seq!['='] + c;
    figures::lemma_decimal(node as nat);
    figures::law_numbers_read_back(count);
    figures::law_numbers_read_back(node as u64);
    assert(token.subrange(0, 1) =~= seq!['N']);
    assert(token.skip(1) =~= rest);
    assert forall|j: int| 0 <= j < n.len() implies rest[j] != '=' by {
        assert(rest[j] == n[j]);
        assert(text::is_digit(n[j]));
    }
    assert(rest[n.len() as int] == '=');
    text::lemma_first_of(rest, '=', n.len() as int);
    assert(rest.take(n.len() as int) =~= n);
    assert(rest.skip(n.len() as int + 1) =~= c);
    assert(text::unsigned_part(n) == n) by {
        assert(text::is_digit(n[0]));
    }
}

/// A part of a CPU list that is written as a range denotes the numbers from its first to its last, one
/// after the other; a number denotes itself. Whitespace around a part does not matter.
pub proof fn law_written_parts_are_read_back(
    lead: Seq<char>,
    start: u32,
    end: u32,
    trail: Seq<char>,
    i: int,
)
    requires
        text::is_blank(lead) && text::is_blank(trail),
    ensures
        ({
            let cpus = part_cpus(
                lead + figures::decimal(start as nat) + "-"@ + figures::decimal(end as nat) + trail,
            );
            &&& start <= end ==> cpus.len() == end - start + 1
            &&& start > end ==> cpus.len() == 0
            &&& 0 <= i < cpus.len() ==> cpus[i] == start + i
        }),
        part_cpus(lead + figures::decimal(start as nat) + trail) == seq![start],
        part_cpus(lead) == Seq::<u32>::empty(),
{
    reveal_strlit("-");
    let none = Seq::<char>::empty();
    let (a, b) = (figures::decimal(start as nat), figures::decimal(end as nat));
    figures::lemma_number_word(start as nat);
    figures::lemma_number_word(end as nat);
    figures::lemma_digits_alone(start as nat, '-');
    let body = a.push('-') + b;
    assert(lead + a + "-"@ + b + trail =~= lead + body + trail);
    assert(body[0] == a[0] && body.last() == b.last());
    text::lemma_trim(lead, body, trail);
    text::law_split_at_the_first(a, '-', b);
    text::lemma_trim(lead, a, trail);
    text::lemma_blank_trims(lead);
    assert(text::trimmed(lead) =~= none);
    assert(!none.contains('-'));
    text::law_split_at_the_first(none, '-', none);
}

/// A CPU list denotes what its parts denote, in order; commas stand between them.
pub proof fn law_cpu_lists_are_parts_between_commas(a: Seq<char>, b: Seq<char>)
    ensures
        cpulist(a.push(',') + b) == cpulist(a) + cpulist(b),
        !a.contains(',') ==> cpulist(a) == part_cpus(a),
{
    let cut = Cut::At(',');
    text::lemma_pieces_at_cut(a, ',', b, cut);
    lemma_cpus_add(text::pieces_of(a, cut), text::pieces_of(b, cut));
    if !a.contains(',') {
        assert forall|i: int| 0 <= i < a.len() implies !cut.at(#[trigger] a[i]) by {
            assert(a.contains(a[i]));
        }
        text::lemma_one_piece(a, cut);
        assert(seq![a].drop_last() =~= Seq::<Seq<char>>::empty());
        assert(cpus_of_parts(seq![a].drop_last()) == Seq::<u32>::empty());
        assert(cpulist(a) =~= part_cpus(a));
    }
}

proof fn lemma_cpus_add(a: Seq<Seq<char>>, b: Seq<Seq<char>>)
    ensures
        cpus_of_parts(a + b) == cpus_of_parts(a) + cpus_of_parts(b),
    decreases b.len(),
{
    if b.len() == 0 {
        assert(a + b =~= a);
        assert(cpus_of_parts(a) + Seq::<u32>::empty() =~= cpus_of_parts(a));
    } else {
        lemma_cpus_add(a, b.drop_last());
        assert((a + b).drop_last() =~= a + b.drop_last());
        assert((a + b).last() == b.last());
        assert(cpus_of_parts(a + b) =~= cpus_of_parts(a) + cpus_of_parts(b));
    }
}

/// An entry that is named `node` and a number gives the CPUs of this node, if its list could be read.
/// An entry with another name gives none.
pub proof fn law_entries_name_their_node(entry: NodeReading, node: u32)
    ensures
        entry.name@ == "node"@ + figures::decimal(node as nat) ==> match entry.cpulist {
            Some(content) => entry.cpus() == Some((node, cpulist(text::trimmed(content@)))),
            None => entry.cpus() is None,
        },
        !text::starts_with(entry.name@, "node"@) ==> entry.cpus() is None,
{
    let none = Seq::<char>::empty();
    text::law_parts_of_a_text(none, "node"@, figures::decimal(node as nat), entry.name@);
    figures::lemma_number_word(node as nat);
}

/// Whether an entry lists a CPU for a node.
pub open spec fn places(entry: NodeReading, cpu: u32, node: u32) -> bool {
    entry.cpus() matches Some((n, cpus)) && n == node && cpus.contains(cpu)
}

/// Each CPU is placed on the node of the last entry that lists it, and a CPU that no entry lists is
/// placed nowhere.
pub proof fn law_cpus_are_placed_on_their_node(entries: Seq<NodeReading>, cpu: u32, node: u32)
    ensures
        forall|j: int|
            0 <= j < entries.len() && places(#[trigger] entries[j], cpu, node) && (forall|k: int,
                other: u32|
                j < k < entries.len() ==> !(#[trigger] places(entries[k], cpu, other)))
                ==> cpu_to_node(entries).contains_key(cpu) && cpu_to_node(entries)[cpu] == node,
        (forall|k: int, other: u32|
            0 <= k < entries.len() ==> !(#[trigger] places(entries[k], cpu, other))) ==> !cpu_to_node(
            entries,
        ).contains_key(cpu),
    decreases entries.len(),
{
    if entries.len() > 0 {
        let rest = entries.drop_last();
        law_cpus_are_placed_on_their_node(rest, cpu, node);
        let last = entries.last();
        assert(entries[entries.len() - 1] == last);
        if let Some((n, cpus)) = last.cpus() {
            assert(cpus.contains(cpu) ==> places(entries[entries.len() - 1], cpu, n));
        }
        assert forall|j: int|
            0 <= j < entries.len() && places(#[trigger] entries[j], cpu, node) && (forall|k: int,
                other: u32|
                j < k < entries.len() ==> !(#[trigger] places(entries[k], cpu, other))) implies cpu_to_node(
            entries,
        ).contains_key(cpu) && cpu_to_node(entries)[cpu] == node by {
            if j < rest.len() {
                assert(rest[j] == entries[j]);
                assert forall|k: int, other: u32| j < k < rest.len() implies !(#[trigger] places(
                    rest[k],
                    cpu,
                    other,
                )) by {
                    assert(rest[k] == entries[k]);
                    assert(!places(entries[k], cpu, other));
                }
            }
        }
        if forall|k: int, other: u32|
            0 <= k < entries.len() ==> !(#[trigger] places(entries[k], cpu, other)) {
            assert forall|k: int, other: u32| 0 <= k < rest.len() implies !(#[trigger] places(
                rest[k],
                cpu,
                other,
            )) by {
                assert(rest[k] == entries[k]);
                assert(!places(entries[k], cpu, other));
            }
        }
    }
}

/// A part of a CPU list that is neither a number nor a range of two numbers denotes none.
pub proof fn law_other_parts_denote_nothing(part: Seq<char>, a: Seq<char>, b: Seq<char>)
    ensures
        !text::trimmed(part).contains('-') && text::u32_of(text::trimmed(part)) is None ==> part_cpus(
            part,
        ) == Seq::<u32>::empty(),
        text::trimmed(part) == a.push('-') + b && !a.contains('-') && (text::u32_of(
            text::trimmed(a),
        ) is None || text::u32_of(text::trimmed(b)) is None) ==> part_cpus(part) == Seq::<u32>::empty(),
{
    let p = text::trimmed(part);
    if !p.contains('-') {
        text::law_split_at_the_first(p, '-', b);
    }
    if !a.contains('-') {
        text::law_split_at_the_first(a, '-', b);
    }
}

/// A token that does not start with `N`, or has no equals sign, gives no pages.
pub proof fn law_other_tokens_give_nothing(token: Seq<char>)
    requires
        token.len() == 0 || token[0] != 'N' || !token.contains('='),
    ensures
        token_pages(token) is None,
{
    let p = seq!['N'];
    if text::starts_with(token, p) {
        assert(token.subrange(0, 1)[0] == token[0]);
        let rest = token.skip(1);
        assert(!rest.contains('=')) by {
            if rest.contains('=') {
                let k = choose|k: int| 0 <= k < rest.len() && rest[k] == '=';
                assert(token[k + 1] == '=');
                assert(token.contains('='));
            }
        }
        text::law_split_at_the_first(rest, '=', Seq::empty());
    }
}

/// The pages of one token count for its node, and for all nodes together; a token without pages counts
/// for none.
pub proof fn law_tokens_count_their_pages(token: Seq<char>, node: u32)
    ensures
        token_pages(token) matches Some((n, count)) ==> {
            &&& pages_total(seq![token]) == count
            &&& n == node ==> pages_on(seq![token], node) == count && mentioned(seq![token], node)
            &&& n != node ==> pages_on(seq![token], node) == 0 && !mentioned(seq![token], node)
        },
        token_pages(token) is None ==> pages_total(seq![token]) == 0 && pages_on(seq![token], node) == 0
            && !mentioned(seq![token], node),
{
    let none = Seq::<Seq<char>>::empty();
    assert(seq![token] =~= none.push(token));
    assert(seq![token].drop_last() =~= none);
    assert(pages_total(none) == 0 && pages_on(none, node) == 0);
    lemma_mentioned_push(none, token, node);
}

} // verus!
