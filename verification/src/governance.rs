//! Who may halt, resume and change a contract.
use crate::address::{Address, PendingUpgrade, TtlExtension};
use vstd::prelude::*;

verus! {

/// Delay between an upgrade's announcement and the first moment it may run, in
/// seconds: three days.
pub const UPGRADE_TIMELOCK_SECONDS: u64 = 259_200;

pub const LEDGERS_PER_DAY: u32 = 17_280;

/// Storage that has less than this left to live is extended.
pub const TTL_THRESHOLD_LEDGERS: u32 = 30 * LEDGERS_PER_DAY;

/// How far extended storage lives.
pub const TTL_EXTEND_TO_LEDGERS: u32 = 120 * LEDGERS_PER_DAY;

/// How storage that was touched is kept alive.
pub open spec fn touched_ttl() -> TtlExtension {
    TtlExtension { threshold: TTL_THRESHOLD_LEDGERS, extend_to: TTL_EXTEND_TO_LEDGERS }
}

/// How storage that was touched is kept alive.
pub fn ttl_extension() -> (r: TtlExtension)
    ensures
        r == touched_ttl(),
{
    TtlExtension { threshold: TTL_THRESHOLD_LEDGERS, extend_to: TTL_EXTEND_TO_LEDGERS }
}

/// The governance record of a contract.
#[derive(Copy, Clone, Debug, PartialEq, Eq, Structural)]
pub struct Governance {
    /// Blocks entries only; every exit stays open.
    pub paused: bool,
    /// Nominated, and not in force until the nominee accepts.
    pub pending_admin: Option<Address>,
    /// May pause but never unpause. The admin stands in where none is set.
    pub guardian: Option<Address>,
    pub pending_upgrade: Option<PendingUpgrade>,
    /// Irreversible.
    pub renounced: bool,
}

impl Governance {
    /// Once governance is renounced no upgrade is under way.
    pub open spec fn wf(self) -> bool {
        self.renounced ==> self.pending_upgrade is None
    }

    pub open spec fn spec_initial() -> Governance {
        Governance {
            paused: false,
            pending_admin: None,
            guardian: None,
            pending_upgrade: None,
            renounced: false,
        }
    }

    pub fn initial() -> (r: Governance)
        ensures
            r == Governance::spec_initial(),
    {
        Governance {
            paused: false,
            pending_admin: None,
            guardian: None,
            pending_upgrade: None,
            renounced: false,
        }
    }

    /// The guardian in force under `admin`.
    pub open spec fn spec_guardian_under(self, admin: Address) -> Address {
        match self.guardian {
            Some(guardian) => guardian,
            None => admin,
        }
    }

    pub fn guardian_under(&self, admin: Address) -> (r: Address)
        ensures
            r == self.spec_guardian_under(admin),
    {
        match self.guardian {
            Some(guardian) => guardian,
            None => admin,
        }
    }

    /// Guardian and admin may pause, until governance is renounced.
    pub open spec fn spec_may_pause(self, admin: Address, caller: Address) -> bool {
        !self.renounced && (caller == admin || caller == self.spec_guardian_under(admin))
    }

    pub fn may_pause(&self, admin: Address, caller: Address) -> (r: bool)
        ensures
            r == self.spec_may_pause(admin, caller),
    {
        !self.renounced && (caller == admin || caller == self.guardian_under(admin))
    }

    /// The upgrade that may run at `now`.
    pub open spec fn spec_due_upgrade(self, now: u64) -> Option<PendingUpgrade> {
        match self.pending_upgrade {
            Some(upgrade) => if now < upgrade.eta {
                None
            } else {
                Some(upgrade)
            },
            None => None,
        }
    }

    pub fn due_upgrade(&self, now: u64) -> (r: Option<PendingUpgrade>)
        ensures
            r == self.spec_due_upgrade(now),
    {
        match self.pending_upgrade {
            Some(upgrade) => if now < upgrade.eta {
                None
            } else {
                Some(upgrade)
            },
            None => None,
        }
    }

    /// The record once governance is given up.
    pub open spec fn spec_renounced(self) -> Governance {
        Governance { pending_admin: None, pending_upgrade: None, renounced: true, ..self }
    }
}

} // verus!
