//! The state of guests as libvirt knows it, from the output of `virsh list --all`.

use vstd::prelude::*;
use vstd::slice::slice_subrange;
use crate::figures;
use crate::text;

verus! {

/// The state of a libvirt domain.
#[derive(Debug, Clone, Copy, PartialEq, Eq, Structural)]
pub enum DomainState {
    Running,
    Idle,
    Paused,
    PmSuspended,
    InShutdown,
    ShutOff,
    Crashed,
    NoState,
}

impl DomainState {
    /// The state as `virsh` writes it.
    pub open spec fn written(self) -> Seq<char> {
        match self {
            DomainState::Running => "running"@,
            DomainState::Idle => "idle"@,
            DomainState::Paused => "paused"@,
            DomainState::PmSuspended => "pmsuspended"@,
            DomainState::InShutdown => "in shutdown"@,
            DomainState::ShutOff => "shut off"@,
            DomainState::Crashed => "crashed"@,
            DomainState::NoState => "no state"@,
        }
    }

    /// The short word that stands for the state.
    pub open spec fn word(self) -> Seq<char> {
        match self {
            DomainState::Running => "run"@,
            DomainState::Idle => "idle"@,
            DomainState::Paused => "pause"@,
            DomainState::PmSuspended => "pmsus"@,
            DomainState::InShutdown => "down"@,
            DomainState::ShutOff => "off"@,
            DomainState::Crashed => "crash"@,
            DomainState::NoState => "none"@,
        }
    }

    fn as_written(self) -> (r: &'static str)
        ensures
            r@ == self.written(),
    {
        match self {
            DomainState::Running => "running",
            DomainState::Idle => "idle",
            DomainState::Paused => "paused",
            DomainState::PmSuspended => "pmsuspended",
            DomainState::InShutdown => "in shutdown",
            DomainState::ShutOff => "shut off",
            DomainState::Crashed => "crashed",
            DomainState::NoState => "no state",
        }
    }

    /// The short word that stands for the state.
    pub fn label(self) -> (r: &'static str)
        ensures
            r@ == self.word(),
    {
        match self {
            DomainState::Running => "run",
            DomainState::Idle => "idle",
            DomainState::Paused => "pause",
            DomainState::PmSuspended => "pmsus",
            DomainState::InShutdown => "down",
            DomainState::ShutOff => "off",
            DomainState::Crashed => "crash",
            DomainState::NoState => "none",
        }
    }
}

// ---------------------------------------------------------------------------
// The output of `virsh list --all`

/// What stands before the state in a line that ends with it, if whitespace parts the two.
pub open spec fn before_state(line: Seq<char>, state: DomainState) -> Option<Seq<char>> {
    let w = state.written();
    let rest = line.take(line.len() - w.len());
    if text::ends_with(line, w) && rest.len() > 0 && text::is_space(rest.last()) {
        Some(rest)
    } else {
        None
    }
}

/// Whether the word can be the id of a domain: a number, or `-` for a domain that is not running.
pub open spec fn is_id(word: Seq<char>) -> bool {
    word == "-"@ || text::u64_of(word) is Some
}

/// The name of the domain in what stands before its state: all that follows the id.
pub open spec fn name_after_id(rest: Seq<char>) -> Option<Seq<char>> {
    let body = text::trimmed(rest);
    let words = text::words_of(body);
    if words.len() >= 2 && is_id(words[0]) {
        match text::without_prefix(body, words[0]) {
            Some(name) => Some(text::trimmed(name)),
            None => None,
        }
    } else {
        None
    }
}

/// The name of the domain in a line with this state.
pub open spec fn name_with_state(line: Seq<char>, state: DomainState) -> Option<Seq<char>> {
    match before_state(text::trimmed(line), state) {
        Some(rest) => name_after_id(rest),
        None => None,
    }
}

/// The states in the order in which a line is tried for them.
pub open spec fn states() -> Seq<DomainState> {
    seq![
        DomainState::Running,
        DomainState::Idle,
        DomainState::Paused,
        DomainState::PmSuspended,
        DomainState::InShutdown,
        DomainState::ShutOff,
        DomainState::Crashed,
        DomainState::NoState,
    ]
}

/// The domain in a line, if it has one of the first `n` states.
pub open spec fn domain_among(line: Seq<char>, n: nat) -> Option<(Seq<char>, DomainState)>
    decreases n,
{
    if n == 0 {
        None
    } else {
        match domain_among(line, (n - 1) as nat) {
            Some(found) => Some(found),
            None => match name_with_state(line, states()[n - 1]) {
                Some(name) => Some((name, states()[n - 1])),
                None => None,
            },
        }
    }
}

/// The domain that a line of the output lists: its id, its name and its state, with whitespace
/// between. Header and rule list none.
pub open spec fn domain_of(line: Seq<char>) -> Option<(Seq<char>, DomainState)> {
    domain_among(line, 8)
}

/// The domains that the output lists, in order.
pub open spec fn domains_of(output: Seq<char>) -> Seq<(Seq<char>, DomainState)> {
    text::lines_of(output).filter_map(|l: Seq<char>| domain_of(l))
}

/// A libvirt domain.
#[derive(Debug)]
pub struct Domain {
    pub name: String,
    pub state: DomainState,
}

impl View for Domain {
    type V = (Seq<char>, DomainState);

    open spec fn view(&self) -> (Seq<char>, DomainState) {
        (self.name@, self.state)
    }
}

/// The views of domains.
pub open spec fn domain_views(s: Seq<Domain>) -> Seq<(Seq<char>, DomainState)> {
    s.map_values(|d: Domain| d@)
}

fn find_name<'a>(line: &'a [char], state: DomainState) -> (r: Option<&'a [char]>)
    ensures
        match r {
            Some(name) => name_with_state(line@, state) == Some(name@),
            None => name_with_state(line@, state) is None,
        },
{
    let l = text::trim(line);
    let w = state.as_written();
    let n = w.unicode_len();
    if !text::has_suffix(l, w) || n >= l.len() {
        return None;
    }
    let rest = slice_subrange(l, 0, l.len() - n);
    if !text::space(rest[rest.len() - 1]) {
        return None;
    }
    let body = text::trim(rest);
    let words = text::words(body);
    if words.len() < 2 {
        return None;
    }
    let id = words[0];
    assert(text::slices(words@)[0] == id@);
    if !text::same_text(id, "-") && text::parse_u64(id).is_none() {
        return None;
    }
    if id.len() <= body.len() && text::same(slice_subrange(body, 0, id.len()), id) {
        Some(text::trim(slice_subrange(body, id.len(), body.len())))
    } else {
        None
    }
}

fn parse_domain(line: &[char]) -> (r: Option<Domain>)
    ensures
        match r {
            Some(d) => domain_of(line@) == Some(d@),
            None => domain_of(line@) is None,
        },
{
    let all = [
        DomainState::Running,
        DomainState::Idle,
        DomainState::Paused,
        DomainState::PmSuspended,
        DomainState::InShutdown,
        DomainState::ShutOff,
        DomainState::Crashed,
        DomainState::NoState,
    ];
    proof {
        assert(all@ =~= states());
    }
    let mut i: usize = 0;
    while i < 8
        invariant
            i <= 8,
            all@ == states(),
            domain_among(line@, i as nat) is None,
        decreases 8 - i,
    {
        let state = all[i];
        if let Some(name) = find_name(line, state) {
            proof {
                lemma_domain_among(line@, (i + 1) as nat, 8);
            }
            return Some(Domain { name: text::to_text(name), state });
        }
        i += 1;
    }
    None
}

proof fn lemma_domain_among(line: Seq<char>, n: nat, m: nat)
    requires
        n <= m,
        domain_among(line, n) is Some,
    ensures
        domain_among(line, m) == domain_among(line, n),
    decreases m,
{
    if n < m {
        lemma_domain_among(line, n, (m - 1) as nat);
    }
}

/// The domains in the output of `virsh list --all`.
pub fn parse_virsh_list(output: &str) -> (r: Vec<Domain>)
    ensures
        domain_views(r@) == domains_of(output@),
{
    let ghost pick = |l: Seq<char>| domain_of(l);
    let c = text::to_chars(output);
    let ls = text::lines(c.as_slice());
    let ghost all = text::lines_of(output@);
    let mut out: Vec<Domain> = Vec::new();
    let mut i: usize = 0;
    assert(all.take(0).filter_map(pick) == Seq::<(Seq<char>, DomainState)>::empty()) by {
        reveal(Seq::filter_map);
    }
    assert(domain_views(out@) =~= Seq::<(Seq<char>, DomainState)>::empty());
    while i < ls.len()
        invariant
            i <= ls@.len(),
            all == text::slices(ls@),
            pick == (|l: Seq<char>| domain_of(l)),
            domain_views(out@) == all.take(i as int).filter_map(pick),
        decreases ls@.len() - i,
    {
        let ghost before = domain_views(out@);
        proof {
            all.lemma_filter_map_take_succ(pick, i as int);
            assert(all[i as int] == ls@[i as int]@);
        }
        if let Some(d) = parse_domain(ls[i]) {
            let ghost v = d@;
            out.push(d);
            assert(domain_views(out@) =~= before.push(v));
        } else {
            assert(before + Seq::<(Seq<char>, DomainState)>::empty() =~= before);
        }
        i += 1;
    }
    assert(all.take(all.len() as int) == all);
    out
}

// ---------------------------------------------------------------------------
// Polling

/// The outcome of one poll.
pub enum Poll {
    /// `virsh` is not installed.
    Missing,
    /// `virsh` ran, but gave no list: libvirt cannot be reached at the moment.
    Failed,
    /// The output of `virsh`.
    Output(String),
}

/// What libvirt is known to say about its domains.
pub struct DomainFeed {
    domains: Vec<Domain>,
    disabled: bool,
}

/// What libvirt is known to say about its domains, as a mathematical value.
#[verifier::ext_equal]
pub ghost struct Feed {
    pub domains: Seq<(Seq<char>, DomainState)>,
    pub disabled: bool,
}

impl View for DomainFeed {
    type V = Feed;

    closed spec fn view(&self) -> Feed {
        Feed { domains: domain_views(self.domains@), disabled: self.disabled }
    }
}

/// The feed after a poll. Without `virsh` it is disabled for good; a failed poll leaves what is
/// known; an output replaces it.
pub open spec fn polled(feed: Feed, poll: Poll) -> Feed {
    if feed.disabled {
        feed
    } else {
        match poll {
            Poll::Missing => Feed { domains: Seq::empty(), disabled: true },
            Poll::Failed => feed,
            Poll::Output(output) => Feed { domains: domains_of(output@), disabled: false },
        }
    }
}

/// The state of the first domain with this name.
pub open spec fn state_named(
    domains: Seq<(Seq<char>, DomainState)>,
    name: Seq<char>,
) -> Option<DomainState>
    decreases domains.len(),
{
    if domains.len() == 0 {
        None
    } else if domains[0].0 == name {
        Some(domains[0].1)
    } else {
        state_named(domains.drop_first(), name)
    }
}

impl DomainFeed {
    /// A feed that knows nothing yet.
    pub fn new() -> (r: Self)
        ensures
            r@ == (Feed { domains: Seq::empty(), disabled: false }),
    {
        let r = DomainFeed { domains: Vec::new(), disabled: false };
        assert(domain_views(r.domains@) =~= Seq::<(Seq<char>, DomainState)>::empty());
        r
    }

    /// Whether polling goes on.
    pub fn is_enabled(&self) -> (r: bool)
        ensures
            r == !self@.disabled,
    {
        !self.disabled
    }

    /// Takes the outcome of a poll over.
    pub fn apply(&mut self, poll: &Poll)
        ensures
            final(self)@ == polled(old(self)@, *poll),
    {
        if self.disabled {
            return;
        }
        match poll {
            Poll::Missing => {
                self.domains = Vec::new();
                self.disabled = true;
                assert(domain_views(self.domains@) =~= Seq::<(Seq<char>, DomainState)>::empty());
            },
            Poll::Failed => {},
            Poll::Output(output) => {
                self.domains = parse_virsh_list(output.as_str());
            },
        }
    }

    /// The state of the domain with this name, where it is known.
    pub fn state_of(&self, name: &str) -> (r: Option<DomainState>)
        ensures
            r == state_named(self@.domains, name@),
    {
        let ghost all = domain_views(self.domains@);
        let name_chars = text::to_chars(name);
        let mut i: usize = 0;
        assert(all.skip(0) =~= all);
        while i < self.domains.len()
            invariant
                i <= self.domains@.len(),
                all == domain_views(self.domains@),
                name_chars@ == name@,
                state_named(all, name@) == state_named(all.skip(i as int), name@),
            decreases self.domains@.len() - i,
        {
            assert(all.skip(i as int)[0] == self.domains@[i as int]@);
            assert(all.skip(i as int).drop_first() =~= all.skip(i + 1));
            if text::same_text(name_chars.as_slice(), self.domains[i].name.as_str()) {
                return Some(self.domains[i].state);
            }
            i += 1;
        }
        None
    }
}

// ---------------------------------------------------------------------------
// Laws

/// Once `virsh` was found missing, no later poll changes anything, and no guest has a state.
pub proof fn law_missing_is_for_good(feed: Feed, later: Poll, name: Seq<char>)
    ensures
        polled(polled(feed, Poll::Missing), later) == polled(feed, Poll::Missing),
        !feed.disabled ==> state_named(polled(feed, Poll::Missing).domains, name) is None,
{
}

/// A poll that fails keeps what the one before it gave.
pub proof fn law_failure_keeps_the_last_state(feed: Feed, name: Seq<char>)
    ensures
        state_named(polled(feed, Poll::Failed).domains, name) == state_named(feed.domains, name),
{
}

/// A line with the id, the name and the state of a domain, as `virsh` lists it, is read back. The
/// name may hold whitespace.
pub proof fn law_listed_domains_are_read_back(
    lead: Seq<char>,
    id: Seq<char>,
    gap: Seq<char>,
    name: Seq<char>,
    space: Seq<char>,
    state: DomainState,
)
    requires
        text::is_blank(lead),
        is_id(id),
        text::is_blank(gap) && gap.len() > 0,
        text::is_clean(name),
        text::is_blank(space) && space.len() > 0,
    ensures
        domain_of(lead + (id + gap + name + space + state.written())) == Some((name, state)),
{
    let w = state.written();
    let rest = id + gap + name + space;
    let line = rest + w;
    lemma_id(id);
    lemma_written(state);
    // Trimming leaves the line.
    assert(line[0] == id[0]);
    assert(line.last() == w.last());
    text::lemma_trim(lead, line, Seq::empty());
    assert(lead + line + Seq::<char>::empty() =~= lead + line);
    // It ends with the state, after whitespace.
    assert(line.subrange(line.len() - w.len(), line.len() as int) =~= w);
    assert(line.take(line.len() - w.len()) =~= rest);
    assert(rest.last() == space[space.len() - 1]);
    assert(before_state(line, state) == Some(rest));
    // What stands before it is the id and the name.
    let body = id + gap + name;
    assert(body[0] == id[0]);
    assert(body.last() == name.last());
    text::lemma_trim(Seq::empty(), body, space);
    assert(Seq::<char>::empty() + body + space =~= rest);
    let after = gap.skip(1) + name;
    assert(body =~= id.push(gap[0]) + after);
    text::lemma_first_word(id, gap[0], after);
    assert(after[gap.len() - 1] == name[0]);
    text::lemma_has_word(after, gap.len() - 1);
    assert(body.subrange(0, id.len() as int) =~= id);
    assert(body.skip(id.len() as int) =~= gap + name);
    text::lemma_trim(gap, name, Seq::empty());
    assert(gap + name + Seq::<char>::empty() =~= gap + name);
    assert(name_with_state(lead + line, state) == Some(name));
    // No other state is found.
    let k = lemma_place(state);
    lemma_none_before(lead + line, state, k);
    assert(domain_among(lead + line, (k + 1) as nat) == Some((name, state)));
    lemma_domain_among(lead + line, (k + 1) as nat, 8);
}

proof fn lemma_id(id: Seq<char>)
    requires
        is_id(id),
    ensures
        id.len() > 0,
        forall|i: int| 0 <= i < id.len() ==> !text::is_space(#[trigger] id[i]),
{
    reveal_strlit("-");
    if id != "-"@ {
        let d = text::unsigned_part(id);
        assert forall|i: int| 0 <= i < id.len() implies !text::is_space(#[trigger] id[i]) by {
            if d.len() < id.len() {
                if i > 0 {
                    assert(text::is_digit(d[i - 1]));
                }
            } else {
                assert(text::is_digit(d[i]));
            }
        }
    }
}

/// The last four characters of the states as they are written.
spec fn ending(state: DomainState) -> (char, char, char, char) {
    match state {
        DomainState::Running => ('n', 'i', 'n', 'g'),
        DomainState::Idle => ('i', 'd', 'l', 'e'),
        DomainState::Paused => ('u', 's', 'e', 'd'),
        DomainState::PmSuspended => ('n', 'd', 'e', 'd'),
        DomainState::InShutdown => ('d', 'o', 'w', 'n'),
        DomainState::ShutOff => (' ', 'o', 'f', 'f'),
        DomainState::Crashed => ('s', 'h', 'e', 'd'),
        DomainState::NoState => ('t', 'a', 't', 'e'),
    }
}

proof fn lemma_written(state: DomainState)
    ensures
        ({
            let w = state.written();
            let n = w.len() as int;
            n >= 4 && (w[n - 4], w[n - 3], w[n - 2], w[n - 1]) == ending(state)
        }),
        !text::is_space(state.written().last()),
{
    reveal_strlit("running");
    reveal_strlit("idle");
    reveal_strlit("paused");
    reveal_strlit("pmsuspended");
    reveal_strlit("in shutdown");
    reveal_strlit("shut off");
    reveal_strlit("crashed");
    reveal_strlit("no state");
}

/// A line ends with one state at most.
proof fn lemma_one_ending(line: Seq<char>, a: DomainState, b: DomainState)
    requires
        text::ends_with(line, a.written()),
        text::ends_with(line, b.written()),
    ensures
        a == b,
{
    lemma_written(a);
    lemma_written(b);
    lemma_ending(line, a);
    lemma_ending(line, b);
    assert(ending(a) == ending(b));
}

proof fn lemma_ending(line: Seq<char>, s: DomainState)
    requires
        text::ends_with(line, s.written()),
        s.written().len() >= 4,
    ensures
        ({
            let w = s.written();
            let n = w.len() as int;
            let m = line.len() as int;
            &&& m >= 4
            &&& (line[m - 4], line[m - 3], line[m - 2], line[m - 1]) == (
                w[n - 4],
                w[n - 3],
                w[n - 2],
                w[n - 1],
            )
        }),
{
    let w = s.written();
    let n = w.len() as int;
    let m = line.len() as int;
    let t = line.subrange(m - n, m);
    assert(t == w);
    assert(t[n - 4] == line[m - 4]);
    assert(t[n - 3] == line[m - 3]);
    assert(t[n - 2] == line[m - 2]);
    assert(t[n - 1] == line[m - 1]);
}

proof fn lemma_place(state: DomainState) -> (k: int)
    ensures
        0 <= k < 8,
        states()[k] == state,
        forall|i: int| 0 <= i < k ==> #[trigger] states()[i] != state,
{
    match state {
        DomainState::Running => 0,
        DomainState::Idle => 1,
        DomainState::Paused => 2,
        DomainState::PmSuspended => 3,
        DomainState::InShutdown => 4,
        DomainState::ShutOff => 5,
        DomainState::Crashed => 6,
        DomainState::NoState => 7,
    }
}

/// A line that ends with one state has none of the others.
proof fn lemma_none_before(line: Seq<char>, state: DomainState, k: int)
    requires
        0 <= k <= 8,
        text::ends_with(text::trimmed(line), state.written()),
        forall|i: int| 0 <= i < k ==> #[trigger] states()[i] != state,
    ensures
        domain_among(line, k as nat) is None,
    decreases k,
{
    if k > 0 {
        lemma_none_before(line, state, k - 1);
        let other = states()[k - 1];
        if text::ends_with(text::trimmed(line), other.written()) {
            lemma_one_ending(text::trimmed(line), state, other);
        }
    }
}

/// The states as `virsh` writes them, and the short words that stand for them.
pub proof fn law_words_of_states(s: DomainState)
    ensures
        s.written() == "running"@ && s.word() == "run"@ <==> s == DomainState::Running,
        s.written() == "idle"@ && s.word() == "idle"@ <==> s == DomainState::Idle,
        s.written() == "paused"@ && s.word() == "pause"@ <==> s == DomainState::Paused,
        s.written() == "pmsuspended"@ && s.word() == "pmsus"@ <==> s == DomainState::PmSuspended,
        s.written() == "in shutdown"@ && s.word() == "down"@ <==> s == DomainState::InShutdown,
        s.written() == "shut off"@ && s.word() == "off"@ <==> s == DomainState::ShutOff,
        s.written() == "crashed"@ && s.word() == "crash"@ <==> s == DomainState::Crashed,
        s.written() == "no state"@ && s.word() == "none"@ <==> s == DomainState::NoState,
{
    lemma_written(s);
    lemma_written(DomainState::Running);
    lemma_written(DomainState::Idle);
    lemma_written(DomainState::Paused);
    lemma_written(DomainState::PmSuspended);
    lemma_written(DomainState::InShutdown);
    lemma_written(DomainState::ShutOff);
    lemma_written(DomainState::Crashed);
    lemma_written(DomainState::NoState);
}

/// The id of a domain is a number, or a dash where the domain does not run.
pub proof fn law_ids_are_numbers_or_a_dash(n: u64, word: Seq<char>)
    ensures
        is_id(figures::decimal(n as nat)),
        is_id("-"@),
        is_id(word) && word != "-"@ ==> forall|i: int|
            0 < i < word.len() ==> text::is_digit(#[trigger] word[i]),
        is_id(word) ==> word.len() > 0 && (word[0] == '-' || word[0] == '+' || text::is_digit(word[0])),
{
    reveal_strlit("-");
    figures::lemma_number_word(n as nat);
    if is_id(word) && word != "-"@ {
        let d = text::unsigned_part(word);
        assert(text::is_digit(d[0]));
        assert forall|i: int| 0 < i < word.len() implies text::is_digit(#[trigger] word[i]) by {
            if d.len() < word.len() {
                assert(text::is_digit(d[i - 1]));
            } else {
                assert(text::is_digit(d[i]));
            }
        }
    }
}

/// A line that does not end with a state lists no domain: the header and the rule below it do not.
pub proof fn law_lines_without_a_state_list_nothing(line: Seq<char>)
    requires
        forall|s: DomainState| !text::ends_with(text::trimmed(line), #[trigger] s.written()),
    ensures
        domain_of(line) is None,
{
    lemma_no_state(line, 8);
}

proof fn lemma_no_state(line: Seq<char>, n: nat)
    requires
        forall|s: DomainState| !text::ends_with(text::trimmed(line), #[trigger] s.written()),
    ensures
        domain_among(line, n) is None,
    decreases n,
{
    if n > 0 {
        lemma_no_state(line, (n - 1) as nat);
        assert(!text::ends_with(text::trimmed(line), states()[n - 1].written()));
    }
}

/// The output lists the domains of its lines, in order.
pub proof fn law_output_is_read_line_by_line(line: Seq<char>, rest: Seq<char>)
    requires
        !line.contains('\n'),
        line.len() == 0 || line.last() != '\r',
    ensures
        domains_of(line.push('\n') + rest) == match domain_of(line) {
            Some(d) => seq![d] + domains_of(rest),
            None => domains_of(rest),
        },
        domains_of(Seq::empty()) == Seq::<(Seq<char>, DomainState)>::empty(),
{
    let pick = |l: Seq<char>| domain_of(l);
    let none = Seq::<(Seq<char>, DomainState)>::empty();
    text::law_lines_end_with_line_feeds(line, rest);
    text::lemma_filter_map_add(seq![line], text::lines_of(rest), pick);
    Seq::lemma_filter_map_singleton(line, pick);
    assert(none + domains_of(rest) =~= domains_of(rest));
    assert(Seq::<Seq<char>>::empty().filter_map(pick) =~= none) by {
        reveal(Seq::filter_map);
    }
}

/// The state of a guest is that of the first domain with exactly its name. A guest without such a
/// domain has none.
pub proof fn law_domains_are_found_by_name(
    domains: Seq<(Seq<char>, DomainState)>,
    name: Seq<char>,
)
    ensures
        forall|i: int|
            0 <= i < domains.len() && (#[trigger] domains[i]).0 == name && (forall|k: int|
                0 <= k < i ==> (#[trigger] domains[k]).0 != name) ==> state_named(domains, name)
                == Some(domains[i].1),
        (forall|k: int| 0 <= k < domains.len() ==> (#[trigger] domains[k]).0 != name) ==> state_named(
            domains,
            name,
        ) is None,
    decreases domains.len(),
{
    if domains.len() > 0 {
        let rest = domains.drop_first();
        law_domains_are_found_by_name(rest, name);
        assert forall|i: int|
            0 <= i < domains.len() && (#[trigger] domains[i]).0 == name && (forall|k: int|
                0 <= k < i ==> (#[trigger] domains[k]).0 != name) implies state_named(domains, name)
            == Some(domains[i].1) by {
            if i > 0 {
                assert(domains[0].0 != name);
                assert(rest[i - 1] == domains[i]);
                assert forall|k: int| 0 <= k < i - 1 implies (#[trigger] rest[k]).0 != name by {
                    assert(rest[k] == domains[k + 1]);
                }
            }
        }
        if forall|k: int| 0 <= k < domains.len() ==> (#[trigger] domains[k]).0 != name {
            assert(domains[0].0 != name);
            assert forall|k: int| 0 <= k < rest.len() implies (#[trigger] rest[k]).0 != name by {
                assert(rest[k] == domains[k + 1]);
            }
        }
    }
}

/// An output replaces what was known, whatever that was, as long as polling goes on; only a missing
/// `virsh` ends it.
pub proof fn law_output_replaces_what_was_known(a: Feed, b: Feed, output: String, poll: Poll)
    requires
        !a.disabled && !b.disabled,
    ensures
        polled(a, Poll::Output(output)) == polled(b, Poll::Output(output)),
        polled(a, Poll::Output(output)).domains == domains_of(output@),
        polled(a, poll).disabled <==> poll is Missing,
        polled(a, Poll::Missing).domains.len() == 0,
{
}

/// A line whose first word is no id lists no domain, whatever follows.
pub proof fn law_lines_without_an_id_list_nothing(
    lead: Seq<char>,
    word: Seq<char>,
    c: char,
    rest: Seq<char>,
)
    requires
        text::is_blank(lead),
        word.len() > 0,
        forall|i: int| 0 <= i < word.len() ==> !text::is_space(#[trigger] word[i]),
        text::is_space(c),
        !is_id(word),
    ensures
        domain_of(lead + word.push(c) + rest) is None,
{
    let line = lead + word.push(c) + rest;
    let body = text::trimmed(line);
    let (a, b) = text::law_trimming_takes_whitespace_off(line);
    let n = word.len() as int;
    let m = lead.len() as int;
    assert forall|i: int| 0 <= i < n implies line[m + i] == #[trigger] word[i] by {}
    assert(!text::is_space(line[m])) by {
        assert(line[m] == word[0]);
    }
    assert(a.len() == m) by {
        if a.len() > m {
            assert(text::is_space(a[m]));
            assert(line[m] == a[m]);
        } else if a.len() < m {
            assert(text::is_space(lead[a.len() as int]));
            assert(line[a.len() as int] == lead[a.len() as int]);
            if body.len() > 0 {
                assert(line[a.len() as int] == body[0]);
            } else {
                assert(line =~= a + b);
                assert(text::is_space(b[m - a.len()]));
                assert(line[m] == b[m - a.len()]);
            }
        }
    }
    assert(body.len() >= n) by {
        if body.len() < n {
            let k = body.len() as int;
            assert(line[m + k] == word[k]);
            assert(line[m + k] == b[0]);
            assert(text::is_space(b[0]));
        }
    }
    assert forall|i: int| 0 <= i < n implies body[i] == #[trigger] word[i] by {
        assert(line[m + i] == body[i]);
        assert(line[m + i] == word[i]);
    }
    if body.len() > n {
        assert(line[m + n] == body[n]);
        assert(line[m + n] == c);
    }
    lemma_no_id(line, word, 8);
}

proof fn lemma_no_id(line: Seq<char>, word: Seq<char>, n: nat)
    requires
        word.len() > 0,
        forall|i: int| 0 <= i < word.len() ==> !text::is_space(#[trigger] word[i]),
        text::trimmed(line).len() >= word.len(),
        forall|i: int| 0 <= i < word.len() ==> text::trimmed(line)[i] == #[trigger] word[i],
        text::trimmed(line).len() > word.len() ==> text::is_space(
            text::trimmed(line)[word.len() as int],
        ),
        !is_id(word),
    ensures
        domain_among(line, n) is None,
    decreases n,
{
    if n > 0 {
        lemma_no_id(line, word, (n - 1) as nat);
        let body = text::trimmed(line);
        if let Some(rest) = before_state(body, states()[n - 1]) {
            let k = word.len() as int;
            let last = rest.len() - 1;
            assert(rest[last] == body[last]);
            if last < k {
                assert(!text::is_space(word[last]));
            }
            let more = rest.skip(k + 1);
            assert(rest[k] == body[k]);
            assert forall|i: int| 0 <= i < k implies rest[i] == #[trigger] word[i] by {
                assert(rest[i] == body[i]);
            }
            assert(rest =~= word.push(rest[k]) + more);
            text::lemma_first_word(word, rest[k], more);
            text::law_trimming_leaves_the_words(rest);
            assert(text::words_of(rest)[0] == word);
        }
    }
}

} // verus!
