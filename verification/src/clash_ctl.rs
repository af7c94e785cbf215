//! The process of clash.

use crate::text;
use vstd::prelude::*;

verus! {

pub const CLASH_BIN: &'static str = "/usr/bin/clash";

pub const CLASH_DIR: &'static str = "/etc/config/clash";

pub const CLASH_YAML: &'static str = "/tmp/clash.yaml";

/// Whether the name of a process is that of the program.
pub fn proc_is_clash(comm: Option<&str>) -> (r: bool)
    ensures
        r == match comm {
            Some(c) => text::trimmed(c@) == "clash"@,
            None => false,
        },
{
    match comm {
        Some(c) => {
            let cs = text::chars_of(c);
            text::same(text::trim(cs.as_slice()), "clash")
        },
        None => false,
    }
}

/// The process of clash, as far as is known.
#[derive(Debug, Clone, Copy, PartialEq, Eq, Structural)]
pub struct ClashSupervisor {
    pid: Option<u32>,
}

impl ClashSupervisor {
    /// The process, as far as is known.
    pub closed spec fn process(&self) -> Option<u32> {
        self.pid
    }

    /// Takes over a process that runs.
    pub fn new(adopted: Option<u32>) -> (r: ClashSupervisor)
        ensures
            r.process() == adopted,
    {
        ClashSupervisor { pid: adopted }
    }

    /// The process, as far as is known.
    pub fn pid(&self) -> (r: Option<u32>)
        ensures
            r == self.process(),
    {
        self.pid
    }

    /// Whether the process has to be started. Another one that runs is taken over.
    pub fn ensure_up(&mut self, alive: bool, found: Option<u32>) -> (r: bool)
        ensures
            r == (!(old(self).process() is Some && alive) && found is None),
            final(self).process() == if old(self).process() is Some && alive {
                old(self).process()
            } else if found is Some {
                found
            } else {
                old(self).process()
            },
    {
        if self.pid.is_some() && alive {
            return false;
        }
        if found.is_some() {
            self.pid = found;
            return false;
        }
        true
    }

    /// The process that is stopped for a restart: the known one, else one that was
    /// found. No process is known afterwards.
    pub fn restart(&mut self, found: Option<u32>) -> (r: Option<u32>)
        ensures
            r == match old(self).process() {
                Some(p) => Some(p),
                None => found,
            },
            final(self).process() is None,
    {
        let target = match self.pid {
            Some(p) => Some(p),
            None => found,
        };
        self.pid = None;
        target
    }

    /// The process was started.
    pub fn spawned(&mut self, pid: u32)
        ensures
            final(self).process() == Some(pid),
    {
        self.pid = Some(pid);
    }
}

} // verus!
