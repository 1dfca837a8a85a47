//! What a QEMU process tells about its guest: whether it is one, the name of the guest and the
//! network interfaces that carry the guest's traffic.

use vstd::prelude::*;
use crate::text;
use crate::text::Cut;

verus! {

// ---------------------------------------------------------------------------
// Process detection

/// Whether a process with this name and executable path runs a guest. The name and the path are
/// compared without regard to the case of ASCII letters.
pub open spec fn runs_guest(proc_name: Seq<char>, exe: Option<Seq<char>>) -> bool {
    let n = text::lowered(proc_name);
    ||| text::holds(n, "qemu-system"@)
    ||| text::starts_with(n, "qemu-kvm"@)
    ||| n == "kvm"@
    ||| exe matches Some(path) && {
        let e = text::lowered(path);
        ||| text::holds(e, "qemu-system"@)
        ||| text::ends_with(e, "/qemu-kvm"@)
        ||| text::ends_with(e, "/kvm"@)
    }
}

/// The view of an optional string slice.
pub open spec fn str_opt(s: Option<&str>) -> Option<Seq<char>> {
    match s {
        Some(s) => Some(s@),
        None => None,
    }
}

/// Whether this is a QEMU/KVM hypervisor process. `proc_name` is the name of the process, which
/// the kernel cuts off after 15 characters; `exe` is its executable path, where it is known.
pub fn is_qemu_process(proc_name: &str, exe: Option<&str>) -> (r: bool)
    ensures
        r == runs_guest(proc_name@, str_opt(exe)),
{
    let n = text::to_lower(proc_name);
    let n = n.as_slice();
    if text::has_part(n, "qemu-system") || text::has_prefix(n, "qemu-kvm") || text::same_text(
        n,
        "kvm",
    ) {
        return true;
    }
    match exe {
        Some(path) => {
            let e = text::to_lower(path);
            let e = e.as_slice();
            text::has_part(e, "qemu-system") || text::has_suffix(e, "/qemu-kvm")
                || text::has_suffix(e, "/kvm")
        },
        None => false,
    }
}

// ---------------------------------------------------------------------------
// Guest name

/// The value of the first name option among the arguments: the argument after `-name` or
/// `--name`, or what follows `-name=` or `--name=`.
pub open spec fn name_option(args: Seq<Seq<char>>) -> Option<Seq<char>>
    decreases args.len(),
{
    if args.len() == 0 {
        None
    } else if args[0] == "-name"@ || args[0] == "--name"@ {
        if args.len() > 1 {
            Some(args[1])
        } else {
            None
        }
    } else if text::starts_with(args[0], "-name="@) {
        text::without_prefix(args[0], "-name="@)
    } else if text::starts_with(args[0], "--name="@) {
        text::without_prefix(args[0], "--name="@)
    } else {
        name_option(args.drop_first())
    }
}

/// The guest name in the value of a name option: what stands before the first comma, without
/// `guest=` and without surrounding whitespace. An empty name is none.
pub open spec fn guest_name(value: Seq<char>) -> Option<Seq<char>> {
    let first = text::trimmed(text::pieces_of(value, Cut::At(','))[0]);
    let cleaned = text::trimmed(
        match text::without_prefix(first, "guest="@) {
            Some(rest) => rest,
            None => first,
        },
    );
    if cleaned.len() == 0 {
        None
    } else {
        Some(cleaned)
    }
}

/// The guest name that the arguments of a QEMU process give.
pub open spec fn vm_name(args: Seq<Seq<char>>) -> Option<Seq<char>> {
    match name_option(args) {
        Some(value) => guest_name(value),
        None => None,
    }
}

/// The view of an optional string.
pub open spec fn string_opt(s: Option<String>) -> Option<Seq<char>> {
    match s {
        Some(s) => Some(s@),
        None => None,
    }
}

/// The optional string as an optional string slice.
pub fn borrowed_opt(s: &Option<String>) -> (r: Option<&str>)
    ensures
        str_opt(r) == string_opt(*s),
{
    match s {
        Some(s) => Some(s.as_str()),
        None => None,
    }
}

fn clean_name(value: &[char]) -> (r: Option<String>)
    ensures
        string_opt(r) == guest_name(value@),
{
    let parts = text::pieces(value, Cut::At(','));
    assert(text::slices(parts@)[0] == parts@[0]@);
    let first = text::trim(parts[0]);
    let rest = match text::strip_prefix(first, "guest=") {
        Some(rest) => rest,
        None => first,
    };
    let cleaned = text::trim(rest);
    if cleaned.len() == 0 {
        None
    } else {
        Some(text::to_text(cleaned))
    }
}

/// The guest name in the arguments of a QEMU process. These forms are known:
///
/// - `-name guest=foo,debug-threads=on`
/// - `-name foo`
/// - `-name foo,debug-threads=on`
/// - `--name foo`
/// - `-name=foo`
pub fn extract_vm_name(args: &[&str]) -> (r: Option<String>)
    ensures
        string_opt(r) == vm_name(text::strs(args@)),
{
    let ghost all = text::strs(args@);
    let mut i: usize = 0;
    assert(all.skip(0) == all);
    while i < args.len()
        invariant
            i <= args@.len(),
            all == text::strs(args@),
            name_option(all) == name_option(all.skip(i as int)),
        decreases args@.len() - i,
    {
        let a = text::to_chars(args[i]);
        let a = a.as_slice();
        proof {
            assert(all.skip(i as int)[0] == a@);
            assert(all.skip(i as int).drop_first() == all.skip(i + 1));
        }
        if text::same_text(a, "-name") || text::same_text(a, "--name") {
            if i + 1 < args.len() {
                let value = text::to_chars(args[i + 1]);
                assert(all.skip(i as int)[1] == value@);
                return clean_name(value.as_slice());
            }
            return None;
        }
        if let Some(value) = text::strip_prefix(a, "-name=") {
            return clean_name(value);
        }
        if let Some(value) = text::strip_prefix(a, "--name=") {
            return clean_name(value);
        }
        i += 1;
    }
    None
}

// ---------------------------------------------------------------------------
// Network interfaces

/// Whether the path is that of a tap device: `/dev/net/tun`, or any whose last component starts
/// with `tap`.
pub open spec fn is_tap_path(target: Seq<char>) -> bool {
    target == "/dev/net/tun"@ || text::starts_with(
        text::pieces_of(target, Cut::At('/')).last(),
        "tap"@,
    )
}

/// Whether the link target of a file descriptor is the character device of a tap: `/dev/net/tun`
/// for a tun/tap bridge, `/dev/tapNN` for macvtap. Only the base name has to start with `tap`: a
/// device that is none has no `iff:` line in its descriptor's information and adds no interface.
pub fn is_tap_device_path(target: &str) -> (r: bool)
    ensures
        r == is_tap_path(target@),
{
    let t = text::to_chars(target);
    let parts = text::pieces(t.as_slice(), Cut::At('/'));
    assert(text::slices(parts@).last() == parts@.last()@);
    text::same_text(t.as_slice(), "/dev/net/tun") || text::has_prefix(
        parts[parts.len() - 1],
        "tap",
    )
}

/// What stands after the prefix in `s`, without surrounding whitespace, if `s` starts with the
/// prefix and this is not empty.
pub open spec fn value_after(s: Seq<char>, prefix: Seq<char>) -> Option<Seq<char>> {
    match text::without_prefix(s, prefix) {
        Some(rest) => if text::trimmed(rest).len() == 0 {
            None
        } else {
            Some(text::trimmed(rest))
        },
        None => None,
    }
}

fn find_value<'a>(s: &'a [char], prefix: &str) -> (r: Option<&'a [char]>)
    ensures
        match r {
            Some(v) => value_after(s@, prefix@) == Some(v@),
            None => value_after(s@, prefix@) is None,
        },
{
    match text::strip_prefix(s, prefix) {
        Some(rest) => {
            let v = text::trim(rest);
            if v.len() == 0 {
                None
            } else {
                Some(v)
            }
        },
        None => None,
    }
}

/// The values of the `ifname=` options in one argument.
pub open spec fn arg_ifnames(arg: Seq<char>) -> Seq<Seq<char>> {
    text::pieces_of(arg, Cut::At(',')).filter_map(|p: Seq<char>| value_after(p, "ifname="@))
}

/// The values of the `ifname=` options in all arguments, in order.
pub open spec fn ifnames(args: Seq<Seq<char>>) -> Seq<Seq<char>>
    decreases args.len(),
{
    if args.len() == 0 {
        Seq::empty()
    } else {
        ifnames(args.drop_last()) + arg_ifnames(args.last())
    }
}

/// The values of all `ifname=` options in the arguments of a QEMU process. Such an option stands
/// among others, with commas between: `tap,id=net0,ifname=vnet3,script=no`.
pub fn extract_ifnames(args: &[&str]) -> (r: Vec<String>)
    ensures
        text::strings(r@) == ifnames(text::strs(args@)),
{
    let ghost all = text::strs(args@);
    let ghost pick = |p: Seq<char>| value_after(p, "ifname="@);
    let mut out: Vec<String> = Vec::new();
    let mut i: usize = 0;
    while i < args.len()
        invariant
            i <= args@.len(),
            all == text::strs(args@),
            pick == (|p: Seq<char>| value_after(p, "ifname="@)),
            text::strings(out@) == ifnames(all.take(i as int)),
        decreases args@.len() - i,
    {
        let ghost before = text::strings(out@);
        let a = text::to_chars(args[i]);
        let parts = text::pieces(a.as_slice(), Cut::At(','));
        let ghost ps = text::pieces_of(a@, Cut::At(','));
        let mut k: usize = 0;
        assert(before + ps.take(0).filter_map(pick) == before) by {
            reveal(Seq::filter_map);
        }
        while k < parts.len()
            invariant
                k <= parts@.len(),
                ps == text::slices(parts@),
                pick == (|p: Seq<char>| value_after(p, "ifname="@)),
                text::strings(out@) == before + ps.take(k as int).filter_map(pick),
            decreases parts@.len() - k,
        {
            let ghost old_out = text::strings(out@);
            proof {
                ps.lemma_filter_map_take_succ(pick, k as int);
                assert(ps[k as int] == parts@[k as int]@);
            }
            if let Some(v) = find_value(parts[k], "ifname=") {
                out.push(text::to_text(v));
                assert(text::strings(out@) == old_out.push(v@));
            }
            k += 1;
        }
        proof {
            assert(ps.take(ps.len() as int) == ps);
            assert(all.take(i + 1).drop_last() == all.take(i as int));
            assert(all.take(i + 1).last() == a@);
        }
        i += 1;
    }
    assert(all.take(all.len() as int) == all);
    out
}


/// A set of interface names. No name is held twice.
pub struct IfaceSet {
    names: Vec<String>,
}

impl View for IfaceSet {
    type V = Set<Seq<char>>;

    closed spec fn view(&self) -> Set<Seq<char>> {
        text::strings(self.names@).to_set()
    }
}

impl IfaceSet {
    /// No name is held twice.
    pub closed spec fn wf(&self) -> bool {
        text::strings(self.names@).no_duplicates()
    }

    /// The set without any name.
    pub fn new() -> (r: Self)
        ensures
            r.wf(),
            r@ == Set::<Seq<char>>::empty(),
    {
        let r = IfaceSet { names: Vec::new() };
        assert(text::strings(r.names@) == Seq::<Seq<char>>::empty());
        assert(r@ =~= Set::<Seq<char>>::empty());
        r
    }

    /// Whether the set has no name.
    pub fn is_empty(&self) -> (r: bool)
        ensures
            r == (self@ =~= Set::<Seq<char>>::empty()),
    {
        proof {
            let all = text::strings(self.names@);
            if all.len() > 0 {
                assert(all.contains(all[0]));
                assert(self@.contains(all[0]));
            } else {
                assert(self@ =~= Set::<Seq<char>>::empty());
            }
        }
        self.names.is_empty()
    }

    /// The number of names in the set.
    pub fn len(&self) -> (r: usize)
        requires
            self.wf(),
        ensures
            r == self@.len(),
    {
        proof {
            text::strings(self.names@).unique_seq_to_set();
        }
        self.names.len()
    }

    /// Whether the set has this name.
    pub fn contains(&self, name: &[char]) -> (r: bool)
        ensures
            r == self@.contains(name@),
    {
        let ghost all = text::strings(self.names@);
        let mut i: usize = 0;
        while i < self.names.len()
            invariant
                i <= self.names@.len(),
                all == text::strings(self.names@),
                forall|j: int| 0 <= j < i ==> all[j] != name@,
            decreases self.names@.len() - i,
        {
            assert(all[i as int] == self.names@[i as int]@);
            if text::same_text(name, self.names[i].as_str()) {
                assert(all.contains(name@));
                return true;
            }
            i += 1;
        }
        assert(!all.contains(name@));
        false
    }

    /// Adds a name to the set.
    pub fn insert(&mut self, name: &[char])
        requires
            old(self).wf(),
        ensures
            final(self).wf(),
            final(self)@ == old(self)@.insert(name@),
    {
        let ghost before = text::strings(self.names@);
        if self.contains(name) {
            assert(self@ =~= self@.insert(name@));
            return;
        }
        self.names.push(text::to_text(name));
        proof {
            let after = text::strings(self.names@);
            assert(after =~= before.push(name@));
            assert(before.to_set().contains(name@) == before.contains(name@));
            assert forall|n: Seq<char>| after.contains(n) <==> (before.contains(n) || n == name@) by {
                if before.contains(n) {
                    let k = choose|k: int| 0 <= k < before.len() && before[k] == n;
                    assert(after[k] == n);
                }
                if n == name@ {
                    assert(after[before.len() as int] == n);
                }
            }
            assert(after.to_set() =~= before.to_set().insert(name@));
        }
    }
}

/// An open file descriptor of a process, as far as it could be read.
pub struct FdReading {
    /// What the descriptor links to.
    pub target: Option<String>,
    /// The descriptor's information, a text of lines.
    pub info: Option<String>,
}

/// The interface names in the information of a file descriptor: the values of its `iff:` lines.
pub open spec fn info_ifaces(info: Seq<char>) -> Seq<Seq<char>> {
    text::lines_of(info).filter_map(|l: Seq<char>| value_after(l, "iff:"@))
}

impl FdReading {
    /// The interface names that the descriptor gives: those in its information, if it links to a
    /// tap device and both could be read.
    pub open spec fn ifaces(self) -> Seq<Seq<char>> {
        match (self.target, self.info) {
            (Some(target), Some(info)) => if is_tap_path(target@) {
                info_ifaces(info@)
            } else {
                Seq::empty()
            },
            _ => Seq::empty(),
        }
    }
}

/// The interfaces of a guest: those that the open tap devices of its process give, and those that
/// its arguments name.
pub open spec fn guest_ifaces(fds: Seq<FdReading>, args: Seq<Seq<char>>) -> Set<Seq<char>> {
    Set::new(
        |n: Seq<char>|
            (exists|i: int| 0 <= i < fds.len() && #[trigger] fds[i].ifaces().contains(n)) || ifnames(
                args,
            ).contains(n),
    )
}

fn add_info_ifaces(set: &mut IfaceSet, info: &str)
    requires
        old(set).wf(),
    ensures
        final(set).wf(),
        final(set)@ == old(set)@.union(info_ifaces(info@).to_set()),
{
    let ghost pick = |l: Seq<char>| value_after(l, "iff:"@);
    let c = text::to_chars(info);
    let ls = text::lines(c.as_slice());
    let ghost all = text::lines_of(info@);
    let mut k: usize = 0;
    assert(all.take(0).filter_map(pick) == Seq::<Seq<char>>::empty());
    assert(set@ =~= old(set)@.union(Seq::<Seq<char>>::empty().to_set()));
    while k < ls.len()
        invariant
            k <= ls@.len(),
            all == text::slices(ls@),
            pick == (|l: Seq<char>| value_after(l, "iff:"@)),
            set.wf(),
            set@ == old(set)@.union(all.take(k as int).filter_map(pick).to_set()),
        decreases ls@.len() - k,
    {
        let ghost got = all.take(k as int).filter_map(pick);
        proof {
            all.lemma_filter_map_take_succ(pick, k as int);
            assert(all[k as int] == ls@[k as int]@);
        }
        if let Some(v) = find_value(ls[k], "iff:") {
            set.insert(v);
            proof {
                lemma_push_to_set(got, v@);
                assert(got + seq![v@] =~= got.push(v@));
                assert(set@ =~= old(set)@.union(got.push(v@).to_set()));
            }
        } else {
            assert(got + Seq::<Seq<char>>::empty() =~= got);
        }
        k += 1;
    }
    assert(all.take(all.len() as int) == all);
}

proof fn lemma_push_to_set<A>(s: Seq<A>, a: A)
    ensures
        s.push(a).to_set() == s.to_set().insert(a),
{
    assert forall|x: A|
        #![trigger s.push(a).to_set().contains(x)]
        s.push(a).to_set().contains(x) <==> s.to_set().insert(a).contains(x) by {
        if s.contains(x) {
            let k = choose|k: int| 0 <= k < s.len() && s[k] == x;
            assert(s.push(a)[k] == x);
        }
        if x == a {
            assert(s.push(a)[s.len() as int] == x);
        }
    }
    assert(s.push(a).to_set() =~= s.to_set().insert(a));
}

/// The network interfaces that belong to one QEMU process, so that a guest is billed for its own
/// traffic only and not for that of every tap in the network namespace. They come from two
/// sources: the open tap devices of the process, and `ifname=` options among its arguments. What
/// could not be read adds nothing.
pub fn vm_ifaces_for_pid(fds: &[FdReading], args: &[&str]) -> (r: IfaceSet)
    ensures
        r.wf(),
        r@ == guest_ifaces(fds@, text::strs(args@)),
{
    let mut set = IfaceSet::new();
    let mut i: usize = 0;
    while i < fds.len()
        invariant
            i <= fds@.len(),
            set.wf(),
            forall|n: Seq<char>| #[trigger]
                set@.contains(n) <==> exists|j: int|
                    0 <= j < i && #[trigger] fds@[j].ifaces().contains(n),
        decreases fds@.len() - i,
    {
        let ghost before = set@;
        match (&fds[i].target, &fds[i].info) {
            (Some(target), Some(info)) => {
                if is_tap_device_path(target.as_str()) {
                    add_info_ifaces(&mut set, info.as_str());
                }
            },
            _ => {},
        }
        proof {
            let got = fds@[i as int].ifaces();
            assert(set@ =~= before.union(got.to_set()));
            assert forall|n: Seq<char>| #[trigger]
                set@.contains(n) <==> exists|j: int|
                    0 <= j < i + 1 && #[trigger] fds@[j].ifaces().contains(n) by {
                if got.contains(n) {
                    assert(fds@[i as int].ifaces().contains(n));
                }
                if before.contains(n) {
                    let j = choose|j: int| 0 <= j < i && #[trigger] fds@[j].ifaces().contains(n);
                    assert(fds@[j].ifaces().contains(n));
                }
                assert(got.to_set().contains(n) <==> got.contains(n));
            }
        }
        i += 1;
    }
    let ghost from_fds = set@;
    let named = extract_ifnames(args);
    let ghost all = text::strings(named@);
    let mut k: usize = 0;
    while k < named.len()
        invariant
            k <= named@.len(),
            all == text::strings(named@),
            set.wf(),
            forall|n: Seq<char>| #[trigger]
                set@.contains(n) <==> from_fds.contains(n) || exists|j: int|
                    0 <= j < k && all[j] == n,
        decreases named@.len() - k,
    {
        let ghost before = set@;
        let name = text::to_chars(named[k].as_str());
        set.insert(name.as_slice());
        assert(all[k as int] == name@);
        k += 1;
    }
    assert(set@ =~= guest_ifaces(fds@, text::strs(args@)));
    set
}

// ---------------------------------------------------------------------------
// Laws

/// All ways to give the name option give the same value.
pub proof fn law_name_forms_agree(value: Seq<char>)
    ensures
        name_option(seq!["-name"@, value]) == Some(value),
        name_option(seq!["--name"@, value]) == Some(value),
        name_option(seq!["-name="@ + value]) == Some(value),
        name_option(seq!["--name="@ + value]) == Some(value),
{
    reveal_strlit("-name");
    reveal_strlit("--name");
    reveal_strlit("-name=");
    reveal_strlit("--name=");
    let one = "-name="@ + value;
    let two = "--name="@ + value;
    assert(one.subrange(0, 6) =~= "-name="@);
    assert(one.skip(6) =~= value);
    assert(one != "-name"@ && one != "--name"@) by {
        assert(one[1] == 'n');
        assert("--name"@[1] == '-');
        assert(one.len() >= 6);
    }
    assert(two.subrange(0, 7) =~= "--name="@);
    assert(two.skip(7) =~= value);
    assert(two != "-name"@ && two != "--name"@) by {
        assert(two.len() >= 7);
    }
    assert(!text::starts_with(two, "-name="@)) by {
        assert(two.subrange(0, 6)[1] == '-');
        assert("-name="@[1] == 'n');
    }
}

/// A process that opens no tap and names no interface has none.
pub proof fn law_no_source_no_interface(fds: Seq<FdReading>, args: Seq<Seq<char>>)
    requires
        forall|i: int| 0 <= i < fds.len() ==> (#[trigger] fds[i]).ifaces().len() == 0,
        ifnames(args).len() == 0,
    ensures
        guest_ifaces(fds, args) == Set::<Seq<char>>::empty(),
{
    assert(guest_ifaces(fds, args) =~= Set::<Seq<char>>::empty());
}

/// A process runs a guest if its name holds `qemu-system`, starts with `qemu-kvm` or is `kvm`, or if
/// its path holds `qemu-system` or ends with `/qemu-kvm` or `/kvm`, whatever the rest is. Capitals do
/// not matter.
pub proof fn law_guests_are_found(
    a: Seq<char>,
    b: Seq<char>,
    name: Seq<char>,
    exe: Option<Seq<char>>,
)
    ensures
        text::lowered(name) == a + "qemu-system"@ + b ==> runs_guest(name, exe),
        text::lowered(name) == "qemu-kvm"@ + b ==> runs_guest(name, exe),
        text::lowered(name) == "kvm"@ ==> runs_guest(name, exe),
        exe matches Some(path) && text::lowered(path) == a + "qemu-system"@ + b ==> runs_guest(
            name,
            exe,
        ),
        exe matches Some(path) && text::lowered(path) == a + "/qemu-kvm"@ ==> runs_guest(name, exe),
        exe matches Some(path) && text::lowered(path) == a + "/kvm"@ ==> runs_guest(name, exe),
{
    text::law_parts_of_a_text(a, "qemu-system"@, b, name);
    text::law_parts_of_a_text(a, "qemu-kvm"@, b, name);
    text::law_parts_of_a_text(a, "/qemu-kvm"@, b, name);
    text::law_parts_of_a_text(a, "/kvm"@, b, name);
}

/// A process runs a guest for no other reason: its name or its path is of one of these forms.
pub proof fn law_only_guests_are_found(name: Seq<char>, exe: Option<Seq<char>>)
    requires
        runs_guest(name, exe),
    ensures
        ({
            let n = text::lowered(name);
            ||| exists|i: int|
                0 <= i <= n.len() - 11 && n == #[trigger] n.take(i) + "qemu-system"@ + n.skip(i + 11)
            ||| n == "qemu-kvm"@ + n.skip(8)
            ||| n == "kvm"@
            ||| exe matches Some(path) && {
                let e = text::lowered(path);
                ||| exists|i: int|
                    0 <= i <= e.len() - 11 && e == #[trigger] e.take(i) + "qemu-system"@ + e.skip(
                        i + 11,
                    )
                ||| e == e.take(e.len() - 9) + "/qemu-kvm"@
                ||| e == e.take(e.len() - 4) + "/kvm"@
            }
        }),
{
    reveal_strlit("qemu-system");
    reveal_strlit("qemu-kvm");
    reveal_strlit("/qemu-kvm");
    reveal_strlit("/kvm");
    let none = Seq::<char>::empty();
    let n = text::lowered(name);
    text::law_parts_of_a_text(none, "qemu-system"@, none, n);
    text::law_parts_of_a_text(none, "qemu-kvm"@, none, n);
    if let Some(path) = exe {
        let e = text::lowered(path);
        text::law_parts_of_a_text(none, "qemu-system"@, none, e);
        text::law_parts_of_a_text(none, "/qemu-kvm"@, none, e);
        text::law_parts_of_a_text(none, "/kvm"@, none, e);
    }
}

/// The other tools of QEMU, such as `qemu-nbd`, `qemu-img` or `qemu-ga`, run no guest: what follows
/// `qemu-` in their name starts neither with `s` nor with `k`. The path may be unknown, or be that of
/// this name in any directory.
pub proof fn law_other_tools_run_no_guest(dir: Seq<char>, rest: Seq<char>)
    requires
        text::lowered(dir) == dir && text::lowered(rest) == rest,
        rest.len() > 0 && rest[0] != 's' && rest[0] != 'k',
        !rest.contains('/'),
        !text::holds(rest, "qemu-system"@),
        !text::holds(dir, "qemu-system"@),
    ensures
        !runs_guest("qemu-"@ + rest, None),
        !runs_guest("qemu-"@ + rest, Some(dir.push('/') + "qemu-"@ + rest)),
{
    reveal_strlit("qemu-");
    reveal_strlit("qemu-system");
    reveal_strlit("qemu-kvm");
    reveal_strlit("kvm");
    reveal_strlit("/qemu-kvm");
    reveal_strlit("/kvm");
    let name = "qemu-"@ + rest;
    let path = dir.push('/') + "qemu-"@ + rest;
    let sys = "qemu-system"@;
    assert forall|i: int| 0 <= i < name.len() implies text::lower(#[trigger] name[i]) == name[i] by {
        if i >= 5 {
            assert(name[i] == rest[i - 5]);
            assert(text::lowered(rest)[i - 5] == rest[i - 5]);
        }
    }
    assert(text::lowered(name) =~= name);
    assert forall|i: int| 0 <= i < path.len() implies text::lower(#[trigger] path[i]) == path[i] by {
        if i < dir.len() {
            assert(path[i] == dir[i]);
            assert(text::lowered(dir)[i] == dir[i]);
        } else if i > dir.len() {
            assert(path[i] == name[i - dir.len() - 1]);
        }
    }
    assert(text::lowered(path) =~= path);
    assert(name[5] == rest[0]);
    assert forall|i: int| !text::stands_at(name, sys, i) by {
        if text::stands_at(name, sys, i) {
            let t = name.subrange(i, i + 11);
            assert(t[0] == name[i] && sys[0] == 'q');
            assert(t[5] == name[i + 5] && sys[5] == 's');
            if i >= 5 {
                assert(rest.subrange(i - 5, i + 6) =~= t);
                assert(text::stands_at(rest, sys, i - 5));
            }
        }
    }
    assert(!text::starts_with(name, "qemu-kvm"@)) by {
        if text::starts_with(name, "qemu-kvm"@) {
            assert(name.subrange(0, 8)[5] == name[5] && "qemu-kvm"@[5] == 'k');
        }
    }
    assert(name != "kvm"@) by {
        assert(name[0] == 'q' && "kvm"@[0] == 'k');
    }
    let d = dir.len() as int;
    assert(path[d] == '/');
    assert forall|j: int| d < j < path.len() implies path[j] != '/' by {
        assert(path[j] == name[j - d - 1]);
        if j - d - 1 >= 5 {
            assert(rest.contains(rest[j - d - 6]));
        }
    }
    assert forall|i: int| !text::stands_at(path, sys, i) by {
        if text::stands_at(path, sys, i) {
            let t = path.subrange(i, i + 11);
            if i <= d && d < i + 11 {
                assert(t[d - i] == path[d]);
                assert(sys[d - i] != '/');
            }
            if i + 11 <= d {
                assert(dir.subrange(i, i + 11) =~= t);
                assert(text::stands_at(dir, sys, i));
            } else {
                assert(name.subrange(i - d - 1, i - d + 10) =~= t);
                assert(text::stands_at(name, sys, i - d - 1));
            }
        }
    }
    let m = path.len() as int;
    assert(!text::ends_with(path, "/qemu-kvm"@)) by {
        if text::ends_with(path, "/qemu-kvm"@) {
            let t = path.subrange(m - 9, m);
            assert(t[0] == path[m - 9] && t[6] == path[m - 3]);
            assert("/qemu-kvm"@[0] == '/' && "/qemu-kvm"@[6] == 'k');
            if m - 9 < d {
                assert(t[d - m + 9] == path[d]);
            }
            assert(path[m - 3] == rest[0]);
        }
    }
    assert(!text::ends_with(path, "/kvm"@)) by {
        if text::ends_with(path, "/kvm"@) {
            let t = path.subrange(m - 4, m);
            assert(t[0] == path[m - 4]);
            assert("/kvm"@[0] == '/');
            assert(m - 4 > d);
        }
    }
}

/// The name of a guest is given back as it is written: without `guest=` before it, without whitespace
/// around it and without the options after it, and not changed in any other way. A name that is empty
/// or blank is none.
pub proof fn law_name_is_given_back(
    lead: Seq<char>,
    name: Seq<char>,
    trail: Seq<char>,
    tail: Seq<char>,
)
    requires
        text::is_clean(name),
        !name.contains(','),
        text::is_blank(lead) && text::is_blank(trail),
        tail.len() > 0 ==> tail[0] == ',',
    ensures
        !text::starts_with(name, "guest="@) ==> guest_name(lead + name + trail + tail) == Some(name),
        guest_name(lead + "guest="@ + name + trail + tail) == Some(name),
        guest_name("guest="@ + lead + name + trail + tail) == Some(name),
        guest_name(lead + tail) is None,
        guest_name("guest="@ + lead + tail) is None,
{
    reveal_strlit("guest=");
    let g = "guest="@;
    let none = Seq::<char>::empty();
    lemma_plain_name(lead, name, trail, tail);
    lemma_prefixed_name(lead, none, name, trail, tail);
    lemma_prefixed_name(none, lead, name, trail, tail);
    assert(lead + g + none =~= lead + g);
    assert(none + g + lead =~= g + lead);
    lemma_blank_name(lead, tail);
}

proof fn lemma_plain_name(lead: Seq<char>, name: Seq<char>, trail: Seq<char>, tail: Seq<char>)
    requires
        text::is_clean(name),
        !name.contains(','),
        text::is_blank(lead) && text::is_blank(trail),
        tail.len() > 0 ==> tail[0] == ',',
    ensures
        !text::starts_with(name, "guest="@) ==> guest_name(lead + name + trail + tail) == Some(name),
{
    let none = Seq::<char>::empty();
    let whole = lead + name + trail;
    lemma_no_comma(lead, name, trail);
    lemma_first_piece(whole, tail);
    text::lemma_trim(lead, name, trail);
    text::lemma_trim(none, name, none);
    assert(none + name + none =~= name);
}

proof fn lemma_prefixed_name(
    lead: Seq<char>,
    gap: Seq<char>,
    name: Seq<char>,
    trail: Seq<char>,
    tail: Seq<char>,
)
    requires
        text::is_clean(name),
        !name.contains(','),
        text::is_blank(lead) && text::is_blank(gap) && text::is_blank(trail),
        tail.len() > 0 ==> tail[0] == ',',
    ensures
        guest_name(lead + "guest="@ + gap + name + trail + tail) == Some(name),
{
    reveal_strlit("guest=");
    let g = "guest="@;
    let none = Seq::<char>::empty();
    let body = g + gap + name;
    let whole = lead + g + gap + name + trail;
    assert(whole =~= lead + body + trail);
    assert(!body.contains(',')) by {
        lemma_no_comma(gap, name, none);
        assert(gap + name + none =~= gap + name);
        if body.contains(',') {
            let k = choose|k: int| 0 <= k < body.len() && body[k] == ',';
            if k >= 6 {
                assert(body[k] == (gap + name)[k - 6]);
            }
        }
    }
    lemma_no_comma(lead, body, trail);
    lemma_first_piece(whole, tail);
    assert(body[0] == 'g' && body.last() == name.last());
    text::lemma_trim(lead, body, trail);
    assert(body =~= g + (gap + name));
    text::law_parts_of_a_text(none, g, gap + name, body);
    text::lemma_trim(gap, name, none);
    assert(gap + name + none =~= gap + name);
}

proof fn lemma_blank_name(blank: Seq<char>, tail: Seq<char>)
    requires
        text::is_blank(blank),
        tail.len() > 0 ==> tail[0] == ',',
    ensures
        guest_name(blank + tail) is None,
        guest_name("guest="@ + blank + tail) is None,
{
    let none = Seq::<char>::empty();
    lemma_no_comma(blank, none, none);
    assert(blank + none + none =~= blank);
    lemma_first_piece(blank, tail);
    text::lemma_blank_trims(blank);
    text::lemma_blank_trims(none);
    assert(text::trimmed(blank) =~= none);
    assert(!text::starts_with(none, "guest="@)) by {
        reveal_strlit("guest=");
    }
    lemma_prefix_alone(blank, tail);
}

proof fn lemma_prefix_alone(blank: Seq<char>, tail: Seq<char>)
    requires
        text::is_blank(blank),
        tail.len() > 0 ==> tail[0] == ',',
    ensures
        guest_name("guest="@ + blank + tail) is None,
{
    let g = "guest="@;
    let none = Seq::<char>::empty();
    let whole = g + blank;
    assert(text::is_clean(g) && !g.contains(',')) by {
        reveal_strlit("guest=");
    }
    lemma_no_comma(none, g, blank);
    assert(none + g + blank =~= whole);
    lemma_first_piece(whole, tail);
    text::lemma_trim(none, g, blank);
    text::law_parts_of_a_text(none, g, none, none);
    assert(g + none =~= g);
    text::lemma_blank_trims(none);
}

/// What stands before the first comma is the first piece.
proof fn lemma_first_piece(s: Seq<char>, tail: Seq<char>)
    requires
        forall|i: int| 0 <= i < s.len() ==> #[trigger] s[i] != ',',
        tail.len() > 0 ==> tail[0] == ',',
    ensures
        text::pieces_of(s + tail, Cut::At(','))[0] == s,
{
    let cut = Cut::At(',');
    text::lemma_one_piece(s, cut);
    if tail.len() == 0 {
        assert(s + tail =~= s);
    } else {
        assert(s + tail =~= s.push(',') + tail.skip(1));
        text::lemma_pieces_at_cut(s, ',', tail.skip(1), cut);
    }
}

proof fn lemma_no_comma(lead: Seq<char>, name: Seq<char>, trail: Seq<char>)
    requires
        text::is_blank(lead) && text::is_blank(trail),
        !name.contains(','),
    ensures
        forall|i: int|
            0 <= i < (lead + name + trail).len() ==> #[trigger] (lead + name + trail)[i] != ',',
{
    let whole = lead + name + trail;
    assert forall|i: int| 0 <= i < whole.len() implies #[trigger] whole[i] != ',' by {
        if i < lead.len() {
            assert(text::is_space(lead[i]));
        } else if i < lead.len() + name.len() {
            assert(name.contains(name[i - lead.len()]));
        } else {
            assert(text::is_space(trail[i - lead.len() - name.len()]));
        }
    }
}

/// Whether an argument is a name option.
pub open spec fn is_name_option(arg: Seq<char>) -> bool {
    ||| arg == "-name"@
    ||| arg == "--name"@
    ||| text::starts_with(arg, "-name="@)
    ||| text::starts_with(arg, "--name="@)
}

/// The first name option counts, in each of its forms, wherever it stands among the arguments.
/// Without one, or where nothing follows it, there is no name.
pub proof fn law_first_name_option_counts(
    before: Seq<Seq<char>>,
    value: Seq<char>,
    after: Seq<Seq<char>>,
)
    requires
        forall|i: int| 0 <= i < before.len() ==> !is_name_option(#[trigger] before[i]),
    ensures
        vm_name(before + seq!["-name"@, value] + after) == guest_name(value),
        vm_name(before + seq!["--name"@, value] + after) == guest_name(value),
        vm_name(before + seq!["-name="@ + value] + after) == guest_name(value),
        vm_name(before + seq!["--name="@ + value] + after) == guest_name(value),
        vm_name(before + seq!["-name"@]) is None,
        vm_name(before) is None,
{
    lemma_separate_value(before, "-name"@, value, after);
    lemma_separate_value(before, "--name"@, value, after);
    lemma_joined_value(before, value, after);
    lemma_skip_others(before, seq!["-name"@]);
    lemma_skip_others(before, Seq::empty());
    assert(before + Seq::<Seq<char>>::empty() =~= before);
}

proof fn lemma_separate_value(
    before: Seq<Seq<char>>,
    option: Seq<char>,
    value: Seq<char>,
    after: Seq<Seq<char>>,
)
    requires
        forall|i: int| 0 <= i < before.len() ==> !is_name_option(#[trigger] before[i]),
        option == "-name"@ || option == "--name"@,
    ensures
        name_option(before + seq![option, value] + after) == Some(value),
{
    let rest = seq![option, value] + after;
    lemma_skip_others(before, rest);
    assert(before + seq![option, value] + after =~= before + rest);
    assert(rest[0] == option && rest[1] == value);
}

proof fn lemma_joined_value(before: Seq<Seq<char>>, value: Seq<char>, after: Seq<Seq<char>>)
    requires
        forall|i: int| 0 <= i < before.len() ==> !is_name_option(#[trigger] before[i]),
    ensures
        name_option(before + seq!["-name="@ + value] + after) == Some(value),
        name_option(before + seq!["--name="@ + value] + after) == Some(value),
{
    let none = Seq::<char>::empty();
    let one = "-name="@ + value;
    let two = "--name="@ + value;
    lemma_joined_options(value);
    text::law_parts_of_a_text(none, "-name="@, value, one);
    text::law_parts_of_a_text(none, "--name="@, value, two);
    let (p, q) = (seq![one] + after, seq![two] + after);
    lemma_skip_others(before, p);
    lemma_skip_others(before, q);
    assert(before + seq![one] + after =~= before + p);
    assert(before + seq![two] + after =~= before + q);
    assert(p[0] == one && q[0] == two);
}

/// An option with its value in it is none of the other forms.
proof fn lemma_joined_options(value: Seq<char>)
    ensures
        "-name="@ + value != "-name"@ && "-name="@ + value != "--name"@,
        "--name="@ + value != "-name"@ && "--name="@ + value != "--name"@,
        !text::starts_with("--name="@ + value, "-name="@),
{
    reveal_strlit("-name");
    reveal_strlit("--name");
    reveal_strlit("-name=");
    reveal_strlit("--name=");
    let one = "-name="@ + value;
    let two = "--name="@ + value;
    assert(one.len() >= 6 && two.len() >= 7);
    assert(one[1] == 'n' && "--name"@[1] == '-');
    if text::starts_with(two, "-name="@) {
        assert(two.subrange(0, 6)[1] == two[1]);
        assert("-name="@[1] == 'n' && two[1] == '-');
    }
}

proof fn lemma_skip_others(before: Seq<Seq<char>>, rest: Seq<Seq<char>>)
    requires
        forall|i: int| 0 <= i < before.len() ==> !is_name_option(#[trigger] before[i]),
    ensures
        name_option(before + rest) == name_option(rest),
    decreases before.len(),
{
    if before.len() > 0 {
        let all = before + rest;
        assert(all[0] == before[0]);
        assert(all.drop_first() =~= before.drop_first() + rest);
        assert forall|i: int| 0 <= i < before.drop_first().len() implies !is_name_option(
            #[trigger] before.drop_first()[i],
        ) by {
            assert(before.drop_first()[i] == before[i + 1]);
        }
        lemma_skip_others(before.drop_first(), rest);
    } else {
        assert(before + rest =~= rest);
    }
}

/// The value after a prefix is given back without the whitespace around it. A blank one is none, and
/// so is that of another prefix.
pub proof fn law_values_are_given_back(
    prefix: Seq<char>,
    lead: Seq<char>,
    value: Seq<char>,
    trail: Seq<char>,
    other: Seq<char>,
)
    requires
        text::is_clean(value),
        text::is_blank(lead) && text::is_blank(trail),
        !text::starts_with(other, prefix),
    ensures
        value_after(prefix + lead + value + trail, prefix) == Some(value),
        value_after(prefix + lead, prefix) is None,
        value_after(other, prefix) is None,
{
    let none = Seq::<char>::empty();
    let rest = lead + value + trail;
    assert(prefix + lead + value + trail =~= prefix + rest);
    text::law_parts_of_a_text(none, prefix, rest, none);
    text::law_parts_of_a_text(none, prefix, lead, none);
    text::lemma_trim(lead, value, trail);
    text::lemma_blank_trims(lead);
}

/// The interface names in an argument are the values of its `ifname=` options, which stand between
/// commas, in order. Other options give none.
pub proof fn law_interfaces_in_an_argument(a: Seq<char>, b: Seq<char>, value: Seq<char>)
    requires
        text::is_clean(value),
        !value.contains(','),
    ensures
        arg_ifnames("ifname="@ + value) == seq![value],
        arg_ifnames(a.push(',') + b) == arg_ifnames(a) + arg_ifnames(b),
        !a.contains(',') && !text::starts_with(a, "ifname="@) ==> arg_ifnames(a) == Seq::<
            Seq<char>,
        >::empty(),
{
    reveal_strlit("ifname=");
    let p = "ifname="@;
    let none = Seq::<char>::empty();
    let pick = |p: Seq<char>| value_after(p, "ifname="@);
    let cut = Cut::At(',');
    let own = p + value;
    assert forall|i: int| 0 <= i < own.len() implies !cut.at(#[trigger] own[i]) by {
        if i >= 7 {
            assert(value.contains(value[i - 7]));
        }
    }
    text::lemma_one_piece(own, cut);
    text::law_parts_of_a_text(none, p, value, none);
    text::lemma_trim(none, value, none);
    assert(none + value + none =~= value);
    Seq::lemma_filter_map_singleton(own, pick);
    text::lemma_pieces_at_cut(a, ',', b, cut);
    text::lemma_filter_map_add(text::pieces_of(a, cut), text::pieces_of(b, cut), pick);
    if !a.contains(',') && !text::starts_with(a, p) {
        assert forall|i: int| 0 <= i < a.len() implies !cut.at(#[trigger] a[i]) by {
            assert(a.contains(a[i]));
        }
        text::lemma_one_piece(a, cut);
        Seq::lemma_filter_map_singleton(a, pick);
    }
}

/// The interface names in several arguments are those of each, in order.
pub proof fn law_interfaces_in_all_arguments(a: Seq<Seq<char>>, b: Seq<Seq<char>>, arg: Seq<char>)
    ensures
        ifnames(a + b) == ifnames(a) + ifnames(b),
        ifnames(seq![arg]) == arg_ifnames(arg),
        ifnames(Seq::empty()) == Seq::<Seq<char>>::empty(),
    decreases b.len(),
{
    assert(seq![arg].drop_last() =~= Seq::<Seq<char>>::empty());
    assert(ifnames(seq![arg].drop_last()) == Seq::<Seq<char>>::empty());
    assert(ifnames(seq![arg]) =~= arg_ifnames(arg));
    if b.len() == 0 {
        assert(a + b =~= a);
        assert(ifnames(a) + Seq::<Seq<char>>::empty() =~= ifnames(a));
    } else {
        law_interfaces_in_all_arguments(a, b.drop_last(), arg);
        assert((a + b).drop_last() =~= a + b.drop_last());
        assert((a + b).last() == b.last());
        assert(ifnames(a + b) =~= ifnames(a) + ifnames(b));
    }
}

/// The interface names in the information of a descriptor are those of its `iff:` lines, in order.
/// Other lines give none.
pub proof fn law_interfaces_in_descriptor_lines(
    gap: Seq<char>,
    name: Seq<char>,
    line: Seq<char>,
    rest: Seq<char>,
)
    requires
        text::is_clean(name) && !name.contains('\n'),
        text::is_blank(gap) && !gap.contains('\n'),
        !line.contains('\n') && (line.len() > 0 ==> line.last() != '\r'),
        !text::starts_with(line, "iff:"@),
    ensures
        info_ifaces(("iff:"@ + gap + name).push('\n') + rest) == seq![name] + info_ifaces(rest),
        info_ifaces(line.push('\n') + rest) == info_ifaces(rest),
{
    reveal_strlit("iff:");
    let none = Seq::<char>::empty();
    let pick = |l: Seq<char>| value_after(l, "iff:"@);
    let own = "iff:"@ + gap + name;
    assert(!own.contains('\n')) by {
        if own.contains('\n') {
            let k = choose|k: int| 0 <= k < own.len() && own[k] == '\n';
            if k >= 4 {
                if k < 4 + gap.len() {
                    assert(gap.contains(gap[k - 4]));
                } else {
                    assert(name.contains(name[k - 4 - gap.len()]));
                }
            }
        }
    }
    assert(own.last() == name.last());
    text::law_lines_end_with_line_feeds(own, rest);
    text::law_lines_end_with_line_feeds(line, rest);
    law_values_are_given_back("iff:"@, gap, name, none, line);
    assert(own + none =~= own);
    text::lemma_filter_map_add(seq![own], text::lines_of(rest), pick);
    text::lemma_filter_map_add(seq![line], text::lines_of(rest), pick);
    Seq::lemma_filter_map_singleton(own, pick);
    Seq::lemma_filter_map_singleton(line, pick);
    assert(Seq::<Seq<char>>::empty() + info_ifaces(rest) =~= info_ifaces(rest));
}

/// A tap device is `/dev/net/tun`, or has a name that starts with `tap`, in any directory. No other
/// device is one.
pub proof fn law_tap_devices(dir: Seq<char>, base: Seq<char>)
    requires
        !base.contains('/'),
    ensures
        is_tap_path("/dev/net/tun"@),
        is_tap_path(base) <==> text::starts_with(base, "tap"@),
        dir.push('/') + base != "/dev/net/tun"@ ==> (is_tap_path(dir.push('/') + base)
            <==> text::starts_with(base, "tap"@)),
{
    reveal_strlit("/dev/net/tun");
    let cut = Cut::At('/');
    assert forall|i: int| 0 <= i < base.len() implies !cut.at(#[trigger] base[i]) by {
        assert(base.contains(base[i]));
    }
    text::lemma_one_piece(base, cut);
    assert(text::pieces_of(base, cut).last() == base);
    text::lemma_pieces_at_cut(dir, '/', base, cut);
    assert(text::pieces_of(dir.push('/') + base, cut).last() == base);
    assert(base != "/dev/net/tun"@) by {
        if base == "/dev/net/tun"@ {
            assert(base.contains(base[0]));
        }
    }
}

/// A guest has the interfaces that the information of its open tap devices gives and those that its
/// arguments name, and no others: what other files give does not count.
pub proof fn law_interfaces_come_from_taps_and_arguments(
    fds: Seq<FdReading>,
    args: Seq<Seq<char>>,
    n: Seq<char>,
)
    ensures
        guest_ifaces(fds, args).contains(n) <==> (exists|i: int|
            0 <= i < fds.len() && (#[trigger] fds[i]).target is Some && is_tap_path(
                fds[i].target->0@,
            ) && fds[i].info is Some && info_ifaces(fds[i].info->0@).contains(n)) || ifnames(
            args,
        ).contains(n),
{
    if exists|i: int| 0 <= i < fds.len() && #[trigger] fds[i].ifaces().contains(n) {
        let i = choose|i: int| 0 <= i < fds.len() && #[trigger] fds[i].ifaces().contains(n);
        assert(fds[i].target is Some);
    }
    if exists|i: int|
        0 <= i < fds.len() && (#[trigger] fds[i]).target is Some && is_tap_path(fds[i].target->0@)
            && fds[i].info is Some && info_ifaces(fds[i].info->0@).contains(n) {
        let i = choose|i: int|
            0 <= i < fds.len() && (#[trigger] fds[i]).target is Some && is_tap_path(
                fds[i].target->0@,
            ) && fds[i].info is Some && info_ifaces(fds[i].info->0@).contains(n);
        assert(fds[i].ifaces().contains(n));
    }
}

} // verus!
