//! The process that keeps the virtual private network up.

use crate::text;
use vstd::prelude::*;

verus! {

pub const OVPN_BIN: &'static str = "/usr/sbin/openvpn";

pub const OVPN_CONFIG: &'static str = "/tmp/paopao.ovpn";

pub const OVPN_TUN: &'static str = "tun114";

/// The pause between two looks at the process, in seconds.
pub const MONITOR_INTERVAL_SEC: u64 = 30;

/// How often the process is restarted after one look.
pub const MAX_RESTARTS_PER_CYCLE: u32 = 2;

/// How long the device is waited for, in seconds.
pub const TUN_UP_WAIT_SEC: u64 = 15;

/// Whether the name of a process is that of the program.
pub fn proc_is_ovpn(comm: Option<&str>) -> (r: bool)
    ensures
        r == match comm {
            Some(c) => text::trimmed(c@) == "openvpn"@,
            None => false,
        },
{
    match comm {
        Some(c) => {
            let cs = text::chars_of(c);
            text::same(text::trim(cs.as_slice()), "openvpn")
        },
        None => false,
    }
}

/// What is done to have the process.
#[derive(Debug, Clone, Copy, PartialEq, Eq, Structural)]
pub enum EnsureStep {
    /// It runs.
    Running,
    /// It runs; it is one that somebody else started.
    Adopted,
    /// Nothing: there is no configuration for it yet.
    NoConfig,
    /// It is started.
    Spawn,
}

/// What is done after a look at the process.
#[derive(Debug, Clone, Copy, PartialEq, Eq, Structural)]
pub enum MonitorStep {
    /// Nothing more.
    Done,
    /// It is restarted because its configuration changed, once.
    Reload,
    /// It is restarted because it is not well; this is the number of the attempt.
    Restart(u32),
    /// It is still not well, and the next look comes later.
    GiveUp,
}

/// The process and the configuration that it was started with.
#[derive(Debug, Clone, Copy, PartialEq, Eq, Structural)]
pub struct OvpnSupervisor {
    pid: Option<u32>,
    config_mtime: Option<u128>,
}

impl OvpnSupervisor {
    /// The process, as far as is known.
    pub closed spec fn process(&self) -> Option<u32> {
        self.pid
    }

    /// When the configuration that it was started with was changed.
    pub closed spec fn started_with(&self) -> Option<u128> {
        self.config_mtime
    }

    /// Takes over a process that runs, with the configuration as it is now.
    pub fn new(adopted: Option<u32>, mtime: Option<u128>) -> (r: OvpnSupervisor)
        ensures
            r.process() == adopted,
            r.started_with() == if adopted is Some {
                mtime
            } else {
                None
            },
    {
        OvpnSupervisor {
            pid: adopted,
            config_mtime: if adopted.is_some() {
                mtime
            } else {
                None
            },
        }
    }

    /// The process, as far as is known.
    pub fn pid(&self) -> (r: Option<u32>)
        ensures
            r == self.process(),
    {
        self.pid
    }

    /// What is done to have the process. Another one that runs is taken over, and
    /// none is started without a configuration.
    pub fn ensure_up(&mut self, alive: bool, found: Option<u32>, config_exists: bool) -> (r: EnsureStep)
        ensures
            r == if old(self).process() is Some && alive {
                EnsureStep::Running
            } else if found is Some {
                EnsureStep::Adopted
            } else if !config_exists {
                EnsureStep::NoConfig
            } else {
                EnsureStep::Spawn
            },
            final(self).process() == if r is Adopted {
                found
            } else {
                old(self).process()
            },
            final(self).started_with() == old(self).started_with(),
    {
        if self.pid.is_some() && alive {
            return EnsureStep::Running;
        }
        if found.is_some() {
            self.pid = found;
            return EnsureStep::Adopted;
        }
        if !config_exists {
            return EnsureStep::NoConfig;
        }
        EnsureStep::Spawn
    }

    /// The process was started.
    pub fn spawned(&mut self, pid: u32, mtime: Option<u128>)
        ensures
            final(self).process() == Some(pid),
            final(self).started_with() == mtime,
    {
        self.pid = Some(pid);
        self.config_mtime = mtime;
    }

    /// The process that is to be stopped: the known one, else one that was found.
    pub fn kill_target(&self, found: Option<u32>) -> (r: Option<u32>)
        ensures
            r == match self.process() {
                Some(p) => Some(p),
                None => found,
            },
    {
        match self.pid {
            Some(p) => Some(p),
            None => found,
        }
    }

    /// The process was stopped.
    pub fn kill(&mut self)
        ensures
            final(self).process() is None,
            final(self).started_with() == old(self).started_with(),
    {
        self.pid = None;
    }

    /// The process was stopped in order to start it again. Tells whether it can be
    /// started: not without a configuration.
    pub fn cold_restart(&mut self, config_exists: bool) -> (r: Result<(), &'static str>)
        ensures
            final(self).process() is None,
            final(self).started_with() == old(self).started_with(),
            match r {
                Ok(_) => config_exists,
                Err(e) => !config_exists && e@ == "openvpn config missing"@,
            },
    {
        self.kill();
        if config_exists {
            Ok(())
        } else {
            Err("openvpn config missing")
        }
    }

    /// Whether all is well: the process runs, or another one does, and the device is
    /// there.
    pub fn is_healthy(&self, alive: bool, found: Option<u32>, device: bool) -> (r: bool)
        ensures
            r == (((self.process() is Some && alive) || found is Some) && device),
    {
        ((self.pid.is_some() && alive) || found.is_some()) && device
    }

    /// Whether the configuration is another than the one that the process was
    /// started with. A missing one counts as unchanged.
    pub fn config_changed(&self, mtime: Option<u128>) -> (r: bool)
        ensures
            r == match (mtime, self.started_with()) {
                (Some(now), Some(then)) => now != then,
                (Some(_), None) => true,
                _ => false,
            },
    {
        match (mtime, self.config_mtime) {
            (Some(now), Some(then)) => now != then,
            (Some(_), None) => true,
            _ => false,
        }
    }
}

/// What is done after a look at the process.
pub fn monitor_start(changed: bool, healthy: bool) -> (r: MonitorStep)
    ensures
        r == if changed {
            MonitorStep::Reload
        } else if healthy {
            MonitorStep::Done
        } else {
            MonitorStep::Restart(1)
        },
{
    if changed {
        MonitorStep::Reload
    } else if healthy {
        MonitorStep::Done
    } else {
        MonitorStep::Restart(1)
    }
}

/// What is done after an attempt to restart the process.
pub fn monitor_next(attempt: u32, recovered: bool) -> (r: MonitorStep)
    ensures
        r == if recovered {
            MonitorStep::Done
        } else if attempt < MAX_RESTARTS_PER_CYCLE {
            MonitorStep::Restart((attempt + 1) as u32)
        } else {
            MonitorStep::GiveUp
        },
        r matches MonitorStep::Restart(n) ==> n <= MAX_RESTARTS_PER_CYCLE,
{
    if recovered {
        MonitorStep::Done
    } else if attempt < MAX_RESTARTS_PER_CYCLE {
        MonitorStep::Restart(attempt + 1)
    } else {
        MonitorStep::GiveUp
    }
}

} // verus!
