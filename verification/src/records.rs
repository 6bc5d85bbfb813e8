//! The records of the ledger: break identifiers, break categories, breaks and repairs.

use std::collections::HashMap;
use vstd::prelude::*;

use crate::binary64::{Binary64, EIGHT_TENTHS_BITS, SEVEN_TENTHS_BITS};

verus! {

/// A unique identifier for a recorded break.
#[derive(Debug, PartialEq, Eq, Hash)]
pub struct BreakId(pub String);

impl View for BreakId {
    type V = Seq<char>;

    open spec fn view(&self) -> Seq<char> {
        self.0@
    }
}

impl Clone for BreakId {
    fn clone(&self) -> (r: BreakId)
        ensures
            r == *self,
    {
        BreakId(self.0.clone())
    }
}

impl BreakId {
    /// The identifier's text (what displaying it shows).
    pub fn to_string(&self) -> (s: String)
        ensures
            s@ == self@,
    {
        self.0.clone()
    }

    /// Whether two identifiers hold the same text.
    pub(crate) fn same_as(&self, other: &BreakId) -> (r: bool)
        ensures
            r == (self@ == other@),
    {
        self.0 == other.0
    }
}

/// The category of a break.
#[derive(Debug, Clone, Copy, Hash, PartialEq, Eq, Structural)]
pub enum BreakType {
    /// A compilation or build error.
    CompilationError,
    /// An unexpected runtime crash.
    RuntimeCrash,
    /// A conservation (constraints/invariants) violation.
    ConservationViolation,
    /// An agent process failure.
    AgentFailure,
    /// A complete build collapse.
    BuildCollapse,
    /// A room dissolving / context loss.
    RoomDissolution,
    /// A skill execution failure.
    SkillFailure,
    /// A network timeout or connectivity loss.
    NetworkTimeout,
}

impl BreakType {
    /// The name of the category, as it is displayed.
    pub open spec fn name(self) -> Seq<char> {
        match self {
            BreakType::CompilationError => "CompilationError"@,
            BreakType::RuntimeCrash => "RuntimeCrash"@,
            BreakType::ConservationViolation => "ConservationViolation"@,
            BreakType::AgentFailure => "AgentFailure"@,
            BreakType::BuildCollapse => "BuildCollapse"@,
            BreakType::RoomDissolution => "RoomDissolution"@,
            BreakType::SkillFailure => "SkillFailure"@,
            BreakType::NetworkTimeout => "NetworkTimeout"@,
        }
    }

    /// The name of the category (what displaying it shows).
    pub fn to_string(&self) -> (s: String)
        ensures
            s@ == self.name(),
    {
        let name: &str = match self {
            BreakType::CompilationError => "CompilationError",
            BreakType::RuntimeCrash => "RuntimeCrash",
            BreakType::ConservationViolation => "ConservationViolation",
            BreakType::AgentFailure => "AgentFailure",
            BreakType::BuildCollapse => "BuildCollapse",
            BreakType::RoomDissolution => "RoomDissolution",
            BreakType::SkillFailure => "SkillFailure",
            BreakType::NetworkTimeout => "NetworkTimeout",
        };
        name.to_owned()
    }
}

/// A recorded break event: something went wrong.
#[derive(Debug, Clone)]
pub struct Break {
    /// Unique identifier for this break.
    pub id: BreakId,
    /// The category of the break.
    pub break_type: BreakType,
    /// Human-readable description.
    pub description: String,
    /// Tick (logical time) at which the break occurred.
    pub tick_occurred: u64,
    /// Arbitrary contextual key-value data attached to the break.
    pub context: HashMap<String, String>,
    /// Severity, normally between zero and one.
    pub severity: Binary64,
}

impl Break {
    /// A break is critical when its severity exceeds eight tenths.
    pub open spec fn critical(self) -> bool {
        self.severity.greater_than(Binary64 { bits: EIGHT_TENTHS_BITS })
    }

    /// Returns `true` if this break is critical (severity above eight tenths).
    pub fn is_critical(&self) -> (r: bool)
        ensures
            r == self.critical(),
    {
        self.severity.gt(&Binary64::from_bits(EIGHT_TENTHS_BITS))
    }
}

/// A repair applied to a previously recorded break.
#[derive(Debug, Clone)]
pub struct Repair {
    /// The `BreakId` of the break that was repaired.
    pub break_id: BreakId,
    /// The method used for repair (e.g. "auto-retry", "rollback", "hotpatch").
    pub method: String,
    /// How much insight this repair added, normally between zero and one.
    pub gold_content: Binary64,
    /// Tick at which the repair was applied.
    pub repaired_tick: u64,
    /// Name / identifier of the repairer.
    pub repairer: String,
    /// Insight or lesson learned from the repair.
    pub insight: String,
    /// Snapshot of state before the repair.
    pub before_state: String,
    /// Snapshot of state after the repair.
    pub after_state: String,
}

impl Repair {
    /// A repair is golden when its gold content exceeds seven tenths.
    pub open spec fn golden(self) -> bool {
        self.gold_content.greater_than(Binary64 { bits: SEVEN_TENTHS_BITS })
    }

    /// Returns `true` if this is a golden repair (gold content above seven tenths).
    pub fn is_golden(&self) -> (r: bool)
        ensures
            r == self.golden(),
    {
        self.gold_content.gt(&Binary64::from_bits(SEVEN_TENTHS_BITS))
    }
}

} // verus!
