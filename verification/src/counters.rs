//! Cumulative I/O counters of a process, as the kernel writes them.

use vstd::prelude::*;
use crate::figures;
use crate::qemu::{self, IfaceSet};
use crate::text;

verus! {

/// Cumulative I/O counters of a process, in bytes since it started.
#[derive(Debug, Clone, Copy, PartialEq, Eq, Structural)]
pub struct IoCounters {
    pub disk_read: u64,
    pub disk_write: u64,
    pub net_rx: u64,
    pub net_tx: u64,
}

impl IoCounters {
    /// The counters of a process that has done nothing, or of which nothing could be read.
    pub open spec fn zero() -> Self {
        IoCounters { disk_read: 0, disk_write: 0, net_rx: 0, net_tx: 0 }
    }
}

impl Default for IoCounters {
    fn default() -> (r: Self)
        ensures
            r == IoCounters::zero(),
    {
        IoCounters { disk_read: 0, disk_write: 0, net_rx: 0, net_tx: 0 }
    }
}

/// The number that `s` denotes, or 0.
pub open spec fn counter(s: Seq<char>) -> u64 {
    match text::u64_of(s) {
        Some(n) => n,
        None => 0,
    }
}

fn parse_counter(s: &[char]) -> (r: u64)
    ensures
        r == counter(s@),
{
    match text::parse_u64(s) {
        Some(n) => n,
        None => 0,
    }
}

/// The counters after the lines of `/proc/[pid]/io` have been taken over into `c`: `read_bytes`
/// and `write_bytes`. A value that is no number counts as 0, and a later line replaces an earlier
/// one.
pub open spec fn with_disk(c: IoCounters, lines: Seq<Seq<char>>) -> IoCounters
    decreases lines.len(),
{
    if lines.len() == 0 {
        c
    } else {
        let before = with_disk(c, lines.drop_last());
        match text::without_prefix(lines.last(), "read_bytes:"@) {
            Some(v) => IoCounters { disk_read: counter(text::trimmed(v)), ..before },
            None => match text::without_prefix(lines.last(), "write_bytes:"@) {
                Some(v) => IoCounters { disk_write: counter(text::trimmed(v)), ..before },
                None => before,
            },
        }
    }
}

/// Takes the disk counters over from the content of `/proc/[pid]/io`, if it could be read.
pub fn read_proc_io(content: Option<&str>, out: &mut IoCounters)
    ensures
        *final(out) == match content {
            Some(content) => with_disk(*old(out), text::lines_of(content@)),
            None => *old(out),
        },
{
    let content = match content {
        Some(content) => content,
        None => {
            return;
        },
    };
    let c = text::to_chars(content);
    let ls = text::lines(c.as_slice());
    let ghost all = text::lines_of(content@);
    let mut i: usize = 0;
    while i < ls.len()
        invariant
            i <= ls@.len(),
            all == text::slices(ls@),
            *out == with_disk(*old(out), all.take(i as int)),
        decreases ls@.len() - i,
    {
        proof {
            assert(all.take(i + 1).drop_last() == all.take(i as int));
            assert(all.take(i + 1).last() == ls@[i as int]@);
        }
        if let Some(v) = text::strip_prefix(ls[i], "read_bytes:") {
            out.disk_read = parse_counter(text::trim(v));
        } else if let Some(v) = text::strip_prefix(ls[i], "write_bytes:") {
            out.disk_write = parse_counter(text::trim(v));
        }
        i += 1;
    }
    assert(all.take(all.len() as int) == all);
}

/// The received and transmitted bytes that a line of `/proc/[pid]/net/dev` adds to the totals of
/// the interfaces: nothing, unless it is the line of one of them and has at least 9 fields.
pub open spec fn line_bytes(line: Seq<char>, ifaces: Set<Seq<char>>) -> (nat, nat) {
    match text::split_once_of(line, ':') {
        Some((iface, rest)) => {
            let fields = text::words_of(rest);
            if ifaces.contains(text::trimmed(iface)) && fields.len() >= 9 {
                (counter(fields[0]) as nat, counter(fields[8]) as nat)
            } else {
                (0, 0)
            }
        },
        None => (0, 0),
    }
}

/// The received and transmitted bytes that the lines add up to.
pub open spec fn bytes_of_lines(lines: Seq<Seq<char>>, ifaces: Set<Seq<char>>) -> (nat, nat)
    decreases lines.len(),
{
    if lines.len() == 0 {
        (0, 0)
    } else {
        let before = bytes_of_lines(lines.drop_last(), ifaces);
        let last = line_bytes(lines.last(), ifaces);
        (before.0 + last.0, before.1 + last.1)
    }
}

/// `n`, but not more than the greatest `u64`.
pub open spec fn capped(n: nat) -> u64 {
    if n <= u64::MAX {
        n as u64
    } else {
        u64::MAX
    }
}

/// The traffic lines of `/proc/[pid]/net/dev`: all but the two header lines.
pub open spec fn traffic_lines(content: Seq<char>) -> Seq<Seq<char>> {
    let all = text::lines_of(content);
    if all.len() >= 2 {
        all.skip(2)
    } else {
        Seq::empty()
    }
}

/// The received and transmitted bytes of the interfaces in the content of `/proc/[pid]/net/dev`.
pub open spec fn net_bytes(content: Seq<char>, ifaces: Set<Seq<char>>) -> (u64, u64) {
    let sums = bytes_of_lines(traffic_lines(content), ifaces);
    (capped(sums.0), capped(sums.1))
}

/// Sums received and transmitted bytes over the given interfaces alone, from the content of
/// `/proc/[pid]/net/dev`. After two header lines it has a line for each interface:
///
/// ```text
///  eth0: 12345 ... 67890 ...
/// ```
///
/// Received bytes are field 0 after the colon, transmitted bytes are field 8.
pub fn sum_net_dev(content: &str, ifaces: &IfaceSet) -> (r: (u64, u64))
    ensures
        r == net_bytes(content@, ifaces@),
{
    let c = text::to_chars(content);
    let ls = text::lines(c.as_slice());
    let ghost all = text::lines_of(content@);
    let ghost traffic = traffic_lines(content@);
    let mut rx: u64 = 0;
    let mut tx: u64 = 0;
    let mut i: usize = 2;
    while i < ls.len()
        invariant
            2 <= i,
            i <= ls@.len() || i == 2,
            all == text::slices(ls@),
            traffic == traffic_lines(content@),
            all == text::lines_of(content@),
            ls@.len() >= 2 ==> rx == capped(bytes_of_lines(traffic.take(i - 2), ifaces@).0),
            ls@.len() >= 2 ==> tx == capped(bytes_of_lines(traffic.take(i - 2), ifaces@).1),
            ls@.len() < 2 ==> rx == 0 && tx == 0,
        decreases ls@.len() - i,
    {
        proof {
            assert(traffic.take(i - 1).drop_last() == traffic.take(i - 2));
            assert(traffic.take(i - 1).last() == ls@[i as int]@);
        }
        if let Some((iface, rest)) = text::split_once(ls[i], ':') {
            if ifaces.contains(text::trim(iface)) {
                let fields = text::words(rest);
                if fields.len() >= 9 {
                    proof {
                        assert(text::slices(fields@)[0] == fields@[0]@);
                        assert(text::slices(fields@)[8] == fields@[8]@);
                    }
                    rx = rx.saturating_add(parse_counter(fields[0]));
                    tx = tx.saturating_add(parse_counter(fields[8]));
                }
            }
        }
        i += 1;
    }
    proof {
        if ls@.len() >= 2 {
            assert(traffic.take(i - 2) == traffic);
        }
    }
    (rx, tx)
}

/// Takes the network counters over from the content of `/proc/[pid]/net/dev`, if it could be read
/// and the guest has interfaces.
pub fn read_proc_net_dev(content: Option<&str>, ifaces: &IfaceSet, out: &mut IoCounters)
    ensures
        *final(out) == match content {
            Some(content) => if ifaces@ =~= Set::<Seq<char>>::empty() {
                *old(out)
            } else {
                IoCounters {
                    net_rx: net_bytes(content@, ifaces@).0,
                    net_tx: net_bytes(content@, ifaces@).1,
                    ..*old(out)
                }
            },
            None => *old(out),
        },
{
    if ifaces.is_empty() {
        return;
    }
    if let Some(content) = content {
        let (rx, tx) = sum_net_dev(content, ifaces);
        out.net_rx = rx;
        out.net_tx = tx;
    }
}

/// The counters that the contents of `/proc/[pid]/io` and `/proc/[pid]/net/dev` give, where they
/// could be read.
pub open spec fn counters_of(
    io: Option<Seq<char>>,
    net_dev: Option<Seq<char>>,
    ifaces: Set<Seq<char>>,
) -> IoCounters {
    let disk = match io {
        Some(io) => with_disk(IoCounters::zero(), text::lines_of(io)),
        None => IoCounters::zero(),
    };
    match net_dev {
        Some(net_dev) => IoCounters {
            net_rx: net_bytes(net_dev, ifaces).0,
            net_tx: net_bytes(net_dev, ifaces).1,
            ..disk
        },
        None => disk,
    }
}

proof fn lemma_no_iface_no_bytes(lines: Seq<Seq<char>>)
    ensures
        bytes_of_lines(lines, Set::empty()) == (0nat, 0nat),
    decreases lines.len(),
{
    if lines.len() > 0 {
        lemma_no_iface_no_bytes(lines.drop_last());
    }
}

/// The counters of a process, from the contents of `/proc/[pid]/io` and `/proc/[pid]/net/dev`.
/// Whatever could not be read (the process has just ended, permission is missing) counts as 0.
pub fn read_io_counters(io: Option<&str>, net_dev: Option<&str>, ifaces: &IfaceSet) -> (r: IoCounters)
    ensures
        r == counters_of(qemu::str_opt(io), qemu::str_opt(net_dev), ifaces@),
{
    let mut c = IoCounters::default();
    read_proc_io(io, &mut c);
    let ghost disk = c;
    read_proc_net_dev(net_dev, ifaces, &mut c);
    proof {
        if ifaces@ =~= Set::<Seq<char>>::empty() && net_dev is Some {
            lemma_no_iface_no_bytes(traffic_lines(net_dev->0@));
            lemma_disk_keeps_net(IoCounters::zero(), text::lines_of(match io {
                Some(io) => io@,
                None => Seq::empty(),
            }));
        }
    }
    c
}

proof fn lemma_disk_keeps_net(c: IoCounters, lines: Seq<Seq<char>>)
    ensures
        with_disk(c, lines).net_rx == c.net_rx,
        with_disk(c, lines).net_tx == c.net_tx,
    decreases lines.len(),
{
    if lines.len() > 0 {
        lemma_disk_keeps_net(c, lines.drop_last());
    }
}

// ---------------------------------------------------------------------------
// Laws

/// Without an interface there is no traffic, whatever other interfaces the content lists.
pub proof fn law_no_interface_no_traffic(content: Seq<char>)
    ensures
        net_bytes(content, Set::empty()) == (0u64, 0u64),
{
    lemma_no_iface_no_bytes(traffic_lines(content));
}

/// A guest is billed for the lines of its own interfaces only: two sets of interfaces that agree
/// on the interfaces that the content lists give the same traffic.
pub proof fn law_only_own_lines_count(lines: Seq<Seq<char>>, a: Set<Seq<char>>, b: Set<Seq<char>>)
    requires
        forall|i: int|
            #![trigger lines[i]]
            0 <= i < lines.len() ==> match text::split_once_of(lines[i], ':') {
                Some((iface, _)) => a.contains(text::trimmed(iface)) == b.contains(
                    text::trimmed(iface),
                ),
                None => true,
            },
    ensures
        bytes_of_lines(lines, a) == bytes_of_lines(lines, b),
    decreases lines.len(),
{
    if lines.len() > 0 {
        assert(lines.last() == lines[lines.len() - 1]);
        assert forall|i: int| #![trigger lines.drop_last()[i]] 0 <= i < lines.len() - 1 implies
            match text::split_once_of(lines.drop_last()[i], ':') {
                Some((iface, _)) => a.contains(text::trimmed(iface)) == b.contains(
                    text::trimmed(iface),
                ),
                None => true,
            } by {
            assert(lines[i] == lines.drop_last()[i]);
        }
        law_only_own_lines_count(lines.drop_last(), a, b);
    }
}

/// A process of which nothing could be read has done nothing.
pub proof fn law_unreadable_counts_nothing(ifaces: Set<Seq<char>>)
    ensures
        counters_of(None, None, ifaces) == IoCounters::zero(),
{
}

/// The traffic of two guests that share no interface adds up to that of both together.
pub proof fn law_traffic_adds_up(lines: Seq<Seq<char>>, a: Set<Seq<char>>, b: Set<Seq<char>>)
    requires
        a.disjoint(b),
    ensures
        bytes_of_lines(lines, a.union(b)).0 == bytes_of_lines(lines, a).0 + bytes_of_lines(
            lines,
            b,
        ).0,
        bytes_of_lines(lines, a.union(b)).1 == bytes_of_lines(lines, a).1 + bytes_of_lines(
            lines,
            b,
        ).1,
    decreases lines.len(),
{
    if lines.len() > 0 {
        law_traffic_adds_up(lines.drop_last(), a, b);
        match text::split_once_of(lines.last(), ':') {
            Some((iface, _)) => {
                let name = text::trimmed(iface);
                assert(!(a.contains(name) && b.contains(name)));
            },
            None => {},
        }
    }
}

/// A line of `/proc/[pid]/io` sets the counter that it names to the number that it gives, and leaves
/// the others: `read_bytes` is what is read from disk, `write_bytes` what is written. Any other line
/// sets nothing.
pub proof fn law_disk_lines_set_their_counter(
    c: IoCounters,
    lines: Seq<Seq<char>>,
    gap: Seq<char>,
    n: u64,
    trail: Seq<char>,
    other: Seq<char>,
)
    requires
        text::is_blank(gap) && text::is_blank(trail),
        !text::starts_with(other, "read_bytes:"@) && !text::starts_with(other, "write_bytes:"@),
    ensures
        with_disk(c, Seq::empty()) == c,
        with_disk(
            c,
            lines.push("read_bytes:"@ + gap + figures::decimal(n as nat) + trail),
        ) == (IoCounters { disk_read: n, ..with_disk(c, lines) }),
        with_disk(
            c,
            lines.push("write_bytes:"@ + gap + figures::decimal(n as nat) + trail),
        ) == (IoCounters { disk_write: n, ..with_disk(c, lines) }),
        with_disk(c, lines.push(other)) == with_disk(c, lines),
{
    reveal_strlit("read_bytes:");
    reveal_strlit("write_bytes:");
    let none = Seq::<char>::empty();
    let value = gap + figures::decimal(n as nat) + trail;
    figures::lemma_number_word(n as nat);
    text::lemma_trim(gap, figures::decimal(n as nat), trail);
    let read = "read_bytes:"@ + gap + figures::decimal(n as nat) + trail;
    let write = "write_bytes:"@ + gap + figures::decimal(n as nat) + trail;
    assert(read =~= "read_bytes:"@ + value);
    assert(write =~= "write_bytes:"@ + value);
    text::law_parts_of_a_text(none, "read_bytes:"@, value, none);
    text::law_parts_of_a_text(none, "write_bytes:"@, value, none);
    assert(!text::starts_with(write, "read_bytes:"@)) by {
        if text::starts_with(write, "read_bytes:"@) {
            assert(write.subrange(0, 11)[0] == 'w');
            assert("read_bytes:"@[0] == 'r');
        }
    }
    assert(lines.push(read).drop_last() =~= lines);
    assert(lines.push(write).drop_last() =~= lines);
    assert(lines.push(other).drop_last() =~= lines);
}

/// The counters of a process: those of the disk come from `/proc/[pid]/io` alone, those of the network
/// from `/proc/[pid]/net/dev` alone, and what could not be read counts as 0.
pub proof fn law_counters_come_from_their_files(
    io: Option<Seq<char>>,
    net_dev: Option<Seq<char>>,
    ifaces: Set<Seq<char>>,
)
    ensures
        ({
            let c = counters_of(io, net_dev, ifaces);
            &&& match io {
                Some(io) => {
                    let disk = with_disk(IoCounters::zero(), text::lines_of(io));
                    c.disk_read == disk.disk_read && c.disk_write == disk.disk_write
                },
                None => c.disk_read == 0 && c.disk_write == 0,
            }
            &&& match net_dev {
                Some(net_dev) => c.net_rx == net_bytes(net_dev, ifaces).0 && c.net_tx == net_bytes(
                    net_dev,
                    ifaces,
                ).1,
                None => c.net_rx == 0 && c.net_tx == 0,
            }
        }),
        IoCounters::zero() == (IoCounters { disk_read: 0, disk_write: 0, net_rx: 0, net_tx: 0 }),
{
    if let Some(io) = io {
        lemma_disk_keeps_net(IoCounters::zero(), text::lines_of(io));
    }
}

/// What the kernel writes about the disk is read back: the bytes read and the bytes written, in two
/// lines one after the other.
pub proof fn law_written_disk_counters_are_read_back(read: u64, write: u64)
    ensures
        ({
            let io = ("read_bytes: "@ + figures::decimal(read as nat)).push('\n') + (
            "write_bytes: "@ + figures::decimal(write as nat)).push('\n');
            let c = counters_of(Some(io), None, Set::empty());
            c.disk_read == read && c.disk_write == write
        }),
{
    reveal_strlit("read_bytes: ");
    reveal_strlit("write_bytes: ");
    reveal_strlit("read_bytes:");
    reveal_strlit("write_bytes:");
    let none = Seq::<char>::empty();
    let no_lines = Seq::<Seq<char>>::empty();
    let gap = seq![' '];
    let (r, w) = (figures::decimal(read as nat), figures::decimal(write as nat));
    let one = "read_bytes: "@ + r;
    let two = "write_bytes: "@ + w;
    figures::lemma_number_word(read as nat);
    figures::lemma_number_word(write as nat);
    figures::lemma_digits_alone(read as nat, '\n');
    figures::lemma_digits_alone(write as nat, '\n');
    assert(!one.contains('\n')) by {
        if one.contains('\n') {
            let k = choose|k: int| 0 <= k < one.len() && one[k] == '\n';
            if k >= 12 {
                assert(r[k - 12] == '\n');
            }
        }
    }
    assert(!two.contains('\n')) by {
        if two.contains('\n') {
            let k = choose|k: int| 0 <= k < two.len() && two[k] == '\n';
            if k >= 13 {
                assert(w[k - 13] == '\n');
            }
        }
    }
    assert(one.last() == r.last() && two.last() == w.last());
    assert(text::is_digit(r[r.len() - 1]) && text::is_digit(w[w.len() - 1]));
    text::law_lines_end_with_line_feeds(one, two.push('\n'));
    text::law_lines_end_with_line_feeds(two, none);
    assert(two.push('\n') + none =~= two.push('\n'));
    assert(seq![two] + no_lines =~= seq![two]);
    assert(seq![one] + seq![two] =~= no_lines.push(one).push(two));
    assert(one =~= "read_bytes:"@ + gap + r + none);
    assert(two =~= "write_bytes:"@ + gap + w + none);
    let c = IoCounters::zero();
    law_disk_lines_set_their_counter(c, no_lines, gap, read, none, none);
    law_disk_lines_set_their_counter(c, no_lines.push(one), gap, write, none, none);
}

/// A line of `/proc/[pid]/net/dev` counts for the interface that it names, and for no other: the first
/// number after the colon is what is received, the ninth what is transmitted.
pub proof fn law_traffic_of_a_line(
    lead: Seq<char>,
    iface: Seq<char>,
    rest: Seq<char>,
    rx: u64,
    tx: u64,
    ifaces: Set<Seq<char>>,
)
    requires
        text::is_blank(lead) && !lead.contains(':'),
        text::is_clean(iface) && !iface.contains(':'),
    ensures
        ({
            let line = (lead + iface).push(':') + rest;
            let fields = text::words_of(rest);
            &&& ifaces.contains(iface) && fields.len() >= 9 && fields[0] == figures::decimal(rx as nat)
                && fields[8] == figures::decimal(tx as nat) ==> line_bytes(line, ifaces) == (
                rx as nat,
                tx as nat,
            )
            &&& !ifaces.contains(iface) ==> line_bytes(line, ifaces) == (0nat, 0nat)
            &&& fields.len() < 9 ==> line_bytes(line, ifaces) == (0nat, 0nat)
        }),
        line_bytes(iface, ifaces) == (0nat, 0nat),
{
    let none = Seq::<char>::empty();
    let name = lead + iface;
    assert(!name.contains(':')) by {
        if name.contains(':') {
            let k = choose|k: int| 0 <= k < name.len() && name[k] == ':';
            if k < lead.len() {
                assert(lead.contains(lead[k]));
            } else {
                assert(iface.contains(iface[k - lead.len()]));
            }
        }
    }
    text::law_split_at_the_first(name, ':', rest);
    text::law_split_at_the_first(iface, ':', rest);
    text::lemma_trim(lead, iface, none);
    assert(lead + iface + none =~= name);
    figures::lemma_number_word(rx as nat);
    figures::lemma_number_word(tx as nat);
}

/// The traffic of several lines is the sum of that of each.
pub proof fn law_traffic_of_lines_adds_up(
    a: Seq<Seq<char>>,
    b: Seq<Seq<char>>,
    line: Seq<char>,
    ifaces: Set<Seq<char>>,
)
    ensures
        bytes_of_lines(a + b, ifaces).0 == bytes_of_lines(a, ifaces).0 + bytes_of_lines(b, ifaces).0,
        bytes_of_lines(a + b, ifaces).1 == bytes_of_lines(a, ifaces).1 + bytes_of_lines(b, ifaces).1,
        bytes_of_lines(seq![line], ifaces) == line_bytes(line, ifaces),
        bytes_of_lines(Seq::empty(), ifaces) == (0nat, 0nat),
    decreases b.len(),
{
    assert(seq![line].drop_last() =~= Seq::<Seq<char>>::empty());
    assert(bytes_of_lines(seq![line].drop_last(), ifaces) == (0nat, 0nat));
    if b.len() == 0 {
        assert(a + b =~= a);
    } else {
        law_traffic_of_lines_adds_up(a, b.drop_last(), line, ifaces);
        assert((a + b).drop_last() =~= a + b.drop_last());
        assert((a + b).last() == b.last());
    }
}

/// The two header lines do not count; all the lines below them do. A sum that is too large is the
/// greatest number.
pub proof fn law_headers_do_not_count(
    head1: Seq<char>,
    head2: Seq<char>,
    body: Seq<char>,
    ifaces: Set<Seq<char>>,
)
    requires
        !head1.contains('\n') && (head1.len() > 0 ==> head1.last() != '\r'),
        !head2.contains('\n') && (head2.len() > 0 ==> head2.last() != '\r'),
    ensures
        ({
            let content = head1.push('\n') + (head2.push('\n') + body);
            let (rx, tx) = bytes_of_lines(text::lines_of(body), ifaces);
            &&& rx <= u64::MAX ==> net_bytes(content, ifaces).0 == rx
            &&& rx > u64::MAX ==> net_bytes(content, ifaces).0 == u64::MAX
            &&& tx <= u64::MAX ==> net_bytes(content, ifaces).1 == tx
            &&& tx > u64::MAX ==> net_bytes(content, ifaces).1 == u64::MAX
        }),
{
    let content = head1.push('\n') + (head2.push('\n') + body);
    text::law_lines_end_with_line_feeds(head1, head2.push('\n') + body);
    text::law_lines_end_with_line_feeds(head2, body);
    let all = seq![head1] + (seq![head2] + text::lines_of(body));
    assert(all.skip(2) =~= text::lines_of(body));
    assert(traffic_lines(content) == text::lines_of(body));
}

/// A value that is no number counts as 0, and a number as itself.
pub proof fn law_values_count_as_numbers(n: u64, s: Seq<char>)
    ensures
        counter(figures::decimal(n as nat)) == n,
        text::u64_of(s) is None ==> counter(s) == 0,
{
    figures::lemma_number_word(n as nat);
}

} // verus!
