//! The state of a QEMU process and the time that it has been running.

use vstd::prelude::*;
use crate::figures;
use crate::text;

verus! {

/// The state of a process, as the operating system gives it.
#[derive(Debug, Clone, Copy, PartialEq, Eq, Structural)]
pub enum ProcStatus {
    Run,
    Sleep,
    Idle,
    /// Uninterruptible sleep on a disk.
    DiskSleep,
    Stop,
    Tracing,
    Zombie,
    Dead,
    /// Any other state.
    Other,
}

/// The state of a guest's process. It is not the state of the libvirt domain: a guest that libvirt
/// has paused keeps its process asleep and is still up.
#[derive(Debug, Clone, Copy, PartialEq, Eq, Structural)]
pub enum GuestState {
    Up,
    /// The process waits for a disk: possibly the storage stalls.
    Io,
    /// The process is stopped or traced.
    Stop,
    Dead,
}

impl ProcStatus {
    /// The state of a guest whose process has this state.
    pub open spec fn guest(self) -> GuestState {
        match self {
            ProcStatus::DiskSleep => GuestState::Io,
            ProcStatus::Stop | ProcStatus::Tracing => GuestState::Stop,
            ProcStatus::Zombie | ProcStatus::Dead => GuestState::Dead,
            _ => GuestState::Up,
        }
    }

    /// The state of a guest whose process has this state.
    pub fn guest_state(self) -> (r: GuestState)
        ensures
            r == self.guest(),
    {
        match self {
            ProcStatus::DiskSleep => GuestState::Io,
            ProcStatus::Stop | ProcStatus::Tracing => GuestState::Stop,
            ProcStatus::Zombie | ProcStatus::Dead => GuestState::Dead,
            _ => GuestState::Up,
        }
    }
}

impl GuestState {
    /// The word that stands for the state.
    pub open spec fn word(self) -> Seq<char> {
        match self {
            GuestState::Up => "up"@,
            GuestState::Io => "io"@,
            GuestState::Stop => "stop"@,
            GuestState::Dead => "dead"@,
        }
    }

    /// The word that stands for the state.
    pub fn label(self) -> (r: &'static str)
        ensures
            r@ == self.word(),
    {
        match self {
            GuestState::Up => "up",
            GuestState::Io => "io",
            GuestState::Stop => "stop",
            GuestState::Dead => "dead",
        }
    }
}

// ---------------------------------------------------------------------------
// Uptime

/// A number of one unit followed by a number of the next smaller one.
pub open spec fn two_units(a: nat, big: char, b: nat, small: char) -> Seq<char> {
    figures::decimal(a).push(big) + figures::decimal(b).push(small)
}

/// A time in seconds, in its two largest units: `4d2h`, `18h30m`, `5m12s`. Less than a minute is
/// given in seconds alone.
pub open spec fn uptime(secs: u64) -> Seq<char> {
    let days = secs as nat / 86400;
    let hours = secs as nat / 3600 % 24;
    let minutes = secs as nat / 60 % 60;
    let rest = secs as nat % 60;
    if days > 0 {
        two_units(days, 'd', hours, 'h')
    } else if hours > 0 {
        two_units(hours, 'h', minutes, 'm')
    } else if minutes > 0 {
        two_units(minutes, 'm', rest, 's')
    } else {
        figures::decimal(rest).push('s')
    }
}

fn two_units_text(a: u64, big: char, b: u64, small: char) -> (r: String)
    ensures
        r@ == two_units(a as nat, big, b as nat, small),
{
    let mut out: Vec<char> = Vec::new();
    figures::append_number(&mut out, a);
    out.push(big);
    figures::append_number(&mut out, b);
    out.push(small);
    assert(out@ =~= two_units(a as nat, big, b as nat, small));
    text::to_text(out.as_slice())
}

/// A time in seconds as a short text.
pub fn fmt_uptime(secs: u64) -> (r: String)
    ensures
        r@ == uptime(secs),
{
    let days: u64 = secs / 86400;
    let hours: u64 = secs / 3600 % 24;
    let minutes: u64 = secs / 60 % 60;
    let rest: u64 = secs % 60;
    if days > 0 {
        two_units_text(days, 'd', hours, 'h')
    } else if hours > 0 {
        two_units_text(hours, 'h', minutes, 'm')
    } else if minutes > 0 {
        two_units_text(minutes, 'm', rest, 's')
    } else {
        let mut out: Vec<char> = Vec::new();
        figures::append_number(&mut out, rest);
        out.push('s');
        assert(out@ =~= figures::decimal(rest as nat).push('s'));
        text::to_text(out.as_slice())
    }
}

// ---------------------------------------------------------------------------
// Laws

/// A guest waits for a disk, is stopped or is dead exactly where its process is; in any other state
/// it is up.
pub proof fn law_states_of_processes(s: ProcStatus)
    ensures
        s.guest() == GuestState::Io <==> s == ProcStatus::DiskSleep,
        s.guest() == GuestState::Stop <==> s == ProcStatus::Stop || s == ProcStatus::Tracing,
        s.guest() == GuestState::Dead <==> s == ProcStatus::Zombie || s == ProcStatus::Dead,
        s.guest() == GuestState::Up <==> s == ProcStatus::Run || s == ProcStatus::Sleep || s
            == ProcStatus::Idle || s == ProcStatus::Other,
{
}

/// Each state has a word of its own.
pub proof fn law_words_of_guest_states(s: GuestState)
    ensures
        s.word() == "up"@ <==> s == GuestState::Up,
        s.word() == "io"@ <==> s == GuestState::Io,
        s.word() == "stop"@ <==> s == GuestState::Stop,
        s.word() == "dead"@ <==> s == GuestState::Dead,
{
    reveal_strlit("up");
    reveal_strlit("io");
    reveal_strlit("stop");
    reveal_strlit("dead");
    assert("up"@[0] == 'u' && "io"@[0] == 'i' && "stop"@[0] == 's' && "dead"@[0] == 'd');
}

/// A time is written in its two largest units, and what is left over is dropped: days and hours, hours
/// and minutes, minutes and seconds, or seconds alone.
pub proof fn law_times_are_written_in_two_units(days: nat, hours: nat, minutes: nat, seconds: nat)
    requires
        hours < 24,
        minutes < 60,
        seconds < 60,
        86400 * days + 3600 * hours + 60 * minutes + seconds <= u64::MAX,
    ensures
        ({
            let text = uptime((86400 * days + 3600 * hours + 60 * minutes + seconds) as u64);
            if days > 0 {
                text == figures::decimal(days) + "d"@ + figures::decimal(hours) + "h"@
            } else if hours > 0 {
                text == figures::decimal(hours) + "h"@ + figures::decimal(minutes) + "m"@
            } else if minutes > 0 {
                text == figures::decimal(minutes) + "m"@ + figures::decimal(seconds) + "s"@
            } else {
                text == figures::decimal(seconds) + "s"@
            }
        }),
{
    reveal_strlit("d");
    reveal_strlit("h");
    reveal_strlit("m");
    reveal_strlit("s");
    let secs = 86400 * days + 3600 * hours + 60 * minutes + seconds;
    assert(secs / 86400 == days);
    assert(secs / 3600 == 24 * days + hours);
    assert(secs / 3600 % 24 == hours);
    assert(secs / 60 == 60 * (24 * days + hours) + minutes);
    assert(secs / 60 % 60 == minutes);
    assert(secs % 60 == seconds);
    let text = uptime(secs as u64);
    if days > 0 {
        assert(text =~= figures::decimal(days) + "d"@ + figures::decimal(hours) + "h"@);
    } else if hours > 0 {
        assert(text =~= figures::decimal(hours) + "h"@ + figures::decimal(minutes) + "m"@);
    } else if minutes > 0 {
        assert(text =~= figures::decimal(minutes) + "m"@ + figures::decimal(seconds) + "s"@);
    } else {
        assert(text =~= figures::decimal(seconds) + "s"@);
    }
}

} // verus!
