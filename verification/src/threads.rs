//! What the kernel tells about the threads of a QEMU process.

use vstd::prelude::*;
use crate::figures;
use crate::text;

verus! {

/// The index of the vCPU that a thread of this name runs: `CPU`, a space, the index, a slash and
/// the name of an accelerator. Other threads run none.
pub open spec fn vcpu_index(comm: Seq<char>) -> Option<u32> {
    match text::without_prefix(text::trimmed(comm), "CPU "@) {
        Some(rest) => match text::split_once_of(rest, '/') {
            Some((index, accel)) => if accel == "KVM"@ || accel == "TCG"@ || accel == "DUMMY"@
                || accel == "MSHV"@ {
                text::u32_of(text::trimmed(index))
            } else {
                None
            },
            None => None,
        },
        None => None,
    }
}

/// The index of the vCPU that a QEMU thread runs, from the thread's name (`CPU 3/KVM`; the part
/// after the slash is the accelerator). It is `None` for any other thread, such as those for I/O
/// or the main loop.
pub fn parse_vcpu_index(comm: &str) -> (r: Option<u32>)
    ensures
        r == vcpu_index(comm@),
{
    let c = text::to_chars(comm);
    match text::strip_prefix(text::trim(c.as_slice()), "CPU ") {
        Some(rest) => match text::split_once(rest, '/') {
            Some((index, accel)) => if text::same_text(accel, "KVM") || text::same_text(accel, "TCG")
                || text::same_text(accel, "DUMMY") || text::same_text(accel, "MSHV") {
                text::parse_u32(text::trim(index))
            } else {
                None
            },
            None => None,
        },
        None => None,
    }
}

/// The CPU in a `/proc/[pid]/task/[tid]/stat` line: the 37th word after the last closing
/// parenthesis.
pub open spec fn stat_processor(content: Seq<char>) -> Option<u32> {
    match text::after_last_of(content, ')') {
        Some(rest) => if text::words_of(rest).len() > 36 {
            text::u32_of(text::words_of(rest)[36])
        } else {
            None
        },
        None => None,
    }
}

/// The CPU that a thread last ran on: field 39 of its `/proc/[pid]/task/[tid]/stat` line. The
/// name of the thread, field 2, stands in parentheses and may hold spaces and parentheses itself
/// (a vCPU thread is named `CPU 0/KVM`), so fields are counted from the last closing one, after
/// which field 3 comes first.
pub fn parse_stat_processor_field(content: &str) -> (r: Option<u32>)
    ensures
        r == stat_processor(content@),
{
    let c = text::to_chars(content);
    match text::after_last(c.as_slice(), ')') {
        Some(rest) => {
            let fields = text::words(rest);
            if fields.len() > 36 {
                assert(text::slices(fields@)[36] == fields@[36]@);
                text::parse_u32(fields[36])
            } else {
                None
            }
        },
        None => None,
    }
}

/// The second word of a `/proc/[pid]/task/[tid]/schedstat` content, if it is a number.
pub open spec fn schedstat_wait(content: Seq<char>) -> Option<u64> {
    if text::words_of(content).len() > 1 {
        text::u64_of(text::words_of(content)[1])
    } else {
        None
    }
}

/// The time in nanoseconds that a thread has waited for a CPU while it could have run: field 2 of
/// its `/proc/[pid]/task/[tid]/schedstat`. It stands for the contention on the host's CPUs.
pub fn parse_schedstat_wait_ns(content: &str) -> (r: Option<u64>)
    ensures
        r == schedstat_wait(content@),
{
    let c = text::to_chars(content);
    let fields = text::words(c.as_slice());
    if fields.len() > 1 {
        assert(text::slices(fields@)[1] == fields@[1]@);
        text::parse_u64(fields[1])
    } else {
        None
    }
}

/// The thread ids among the names of the entries of `/proc/[pid]/task`, in order.
pub open spec fn ids_of(names: Seq<Seq<char>>) -> Seq<u32> {
    names.filter_map(|n: Seq<char>| text::u32_of(n))
}

/// The thread ids among the names of the entries of `/proc/[pid]/task`. A name that is no number is
/// left out.
pub fn task_ids(names: &[String]) -> (r: Vec<u32>)
    ensures
        r@ == ids_of(text::strings(names@)),
{
    let ghost all = text::strings(names@);
    let ghost pick = |n: Seq<char>| text::u32_of(n);
    let mut out: Vec<u32> = Vec::new();
    let mut i: usize = 0;
    assert(all.take(0).filter_map(pick) == Seq::<u32>::empty()) by {
        reveal(Seq::filter_map);
    }
    while i < names.len()
        invariant
            i <= names@.len(),
            all == text::strings(names@),
            pick == (|n: Seq<char>| text::u32_of(n)),
            out@ == all.take(i as int).filter_map(pick),
        decreases names@.len() - i,
    {
        let ghost before = out@;
        let name = text::to_chars(names[i].as_str());
        proof {
            all.lemma_filter_map_take_succ(pick, i as int);
            assert(all[i as int] == name@);
        }
        if let Some(tid) = text::parse_u32(name.as_slice()) {
            out.push(tid);
            assert(before + seq![tid] =~= before.push(tid));
        } else {
            assert(before + Seq::<u32>::empty() =~= before);
        }
        i += 1;
    }
    assert(all.take(all.len() as int) == all);
    out
}

// ---------------------------------------------------------------------------
// Laws

/// The name of the thread does not matter for its CPU: whatever stands between the parentheses,
/// even spaces and further parentheses, the same fields after it give the same CPU.
pub proof fn law_name_does_not_matter(head1: Seq<char>, head2: Seq<char>, fields: Seq<char>)
    requires
        forall|i: int| 0 <= i < fields.len() ==> fields[i] != ')',
    ensures
        stat_processor(head1.push(')') + fields) == stat_processor(head2.push(')') + fields),
{
    lemma_after_name(head1, fields);
    lemma_after_name(head2, fields);
}

proof fn lemma_after_name(head: Seq<char>, fields: Seq<char>)
    requires
        forall|i: int| 0 <= i < fields.len() ==> fields[i] != ')',
    ensures
        text::after_last_of(head.push(')') + fields, ')') == Some(fields),
{
    let all = head.push(')') + fields;
    let i = head.len() as int;
    assert(all[i] == ')');
    assert forall|j: int| i < j < all.len() implies all[j] != ')' by {
        assert(all[j] == fields[j - i - 1]);
    }
    text::lemma_last_of(all, ')', i);
    assert(all.skip(i + 1) =~= fields);
}

/// A thread that is named `CPU`, a number, a slash and one of the four accelerators runs the vCPU of
/// this number. Whitespace around the name does not matter.
pub proof fn law_vcpu_threads_are_found(
    lead: Seq<char>,
    index: u32,
    accel: Seq<char>,
    trail: Seq<char>,
)
    requires
        text::is_blank(lead) && text::is_blank(trail),
        text::is_clean(accel),
    ensures
        ({
            let comm = lead + "CPU "@ + figures::decimal(index as nat) + "/"@ + accel + trail;
            if accel == "KVM"@ || accel == "TCG"@ || accel == "DUMMY"@ || accel == "MSHV"@ {
                vcpu_index(comm) == Some(index)
            } else {
                vcpu_index(comm) is None
            }
        }),
{
    reveal_strlit("CPU ");
    reveal_strlit("/");
    let none = Seq::<char>::empty();
    let n = figures::decimal(index as nat);
    let rest = n.push('/') + accel;
    let body = "CPU "@ + rest;
    let comm = lead + "CPU "@ + n + "/"@ + accel + trail;
    assert(comm =~= lead + body + trail);
    assert(body[0] == 'C' && body.last() == accel.last());
    text::lemma_trim(lead, body, trail);
    text::law_parts_of_a_text(none, "CPU "@, rest, none);
    figures::lemma_digits_alone(index as nat, '/');
    text::law_split_at_the_first(n, '/', accel);
    figures::lemma_number_word(index as nat);
}

/// Any other thread runs no vCPU: its name does not start with `CPU` and a space, or has no slash.
pub proof fn law_other_threads_run_no_vcpu(comm: Seq<char>)
    requires
        !text::starts_with(text::trimmed(comm), "CPU "@) || !text::trimmed(comm).contains('/'),
    ensures
        vcpu_index(comm) is None,
{
    let none = Seq::<char>::empty();
    let body = text::trimmed(comm);
    text::law_parts_of_a_text(none, "CPU "@, none, body);
    if text::starts_with(body, "CPU "@) {
        reveal_strlit("CPU ");
        let rest = body.skip(4);
        assert(!rest.contains('/')) by {
            if rest.contains('/') {
                let k = choose|k: int| 0 <= k < rest.len() && rest[k] == '/';
                assert(body[k + 4] == '/');
                assert(body.contains('/'));
            }
        }
        text::law_split_at_the_first(rest, '/', none);
    }
}

/// The CPU of a thread is the 37th word after the parentheses around its name. Without that many
/// words, or without a parenthesis, there is none.
pub proof fn law_cpu_is_the_37th_word(head: Seq<char>, fields: Seq<char>, cpu: u32)
    requires
        !fields.contains(')'),
    ensures
        text::words_of(fields).len() >= 37 && text::words_of(fields)[36] == figures::decimal(
            cpu as nat,
        ) ==> stat_processor(head.push(')') + fields) == Some(cpu),
        text::words_of(fields).len() < 37 ==> stat_processor(head.push(')') + fields) is None,
        stat_processor(fields) is None,
{
    text::law_rest_after_the_last(head, ')', fields);
    figures::lemma_number_word(cpu as nat);
}

/// The waiting time of a thread is the second of the words, whatever the first one and the others
/// are. Without a second word there is none.
pub proof fn law_waiting_time_is_the_second_word(
    first: Seq<char>,
    ns: u64,
    space: char,
    rest: Seq<char>,
)
    requires
        first.len() > 0,
        forall|i: int| 0 <= i < first.len() ==> !text::is_space(#[trigger] first[i]),
        text::is_space(space),
    ensures
        schedstat_wait(first.push(space) + (figures::decimal(ns as nat).push(space) + rest)) == Some(ns),
        schedstat_wait(first) is None,
        schedstat_wait(Seq::empty()) is None,
{
    let n = figures::decimal(ns as nat);
    figures::lemma_number_word(ns as nat);
    text::lemma_first_word(n, space, rest);
    text::lemma_first_word(first, space, n.push(space) + rest);
    text::lemma_one_word(first);
    text::lemma_no_word();
    let words = seq![first] + (seq![n] + text::words_of(rest));
    assert(words[1] == n);
}

/// The thread ids are the numbers among the names, in order; other names are left out.
pub proof fn law_thread_ids_are_the_numbers(
    a: Seq<Seq<char>>,
    b: Seq<Seq<char>>,
    id: u32,
    name: Seq<char>,
)
    ensures
        ids_of(a + b) == ids_of(a) + ids_of(b),
        ids_of(seq![figures::decimal(id as nat)]) == seq![id],
        text::u32_of(name) is None ==> ids_of(seq![name]) == Seq::<u32>::empty(),
{
    let pick = |n: Seq<char>| text::u32_of(n);
    text::lemma_filter_map_add(a, b, pick);
    figures::lemma_number_word(id as nat);
    Seq::lemma_filter_map_singleton(figures::decimal(id as nat), pick);
    Seq::lemma_filter_map_singleton(name, pick);
}

} // verus!
