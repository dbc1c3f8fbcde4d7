//! The threat check: how alarming it is that the classifier points a request
//! back to where it must not go.
//!
//! A request whose best next hop is the link it may not be forwarded to
//! looks like a loop, a replay or a flood. The weight of that link gives the
//! severity on a scale from 0 to 100; the severity falls into one of four
//! bands, and only the highest band has the request dropped.
use crate::bayes::WEIGHT_SCALE;
use vstd::prelude::*;

verus! {

/// The bands of severity, from the lowest to the highest.
#[derive(Clone, Copy, Debug, PartialEq, Eq, Structural)]
pub enum ThreatBand {
    Defcon4,
    Defcon3,
    Defcon2,
    Defcon1,
}

/// What the node does about a request in a band.
#[derive(Clone, Copy, Debug, PartialEq, Eq, Structural)]
pub enum ThreatAction {
    /// The request is forwarded; the band is reported.
    Report,
    /// The request is dropped.
    Drop,
}

/// The lowest severity of the second band.
pub const DEFCON3_FLOOR: u64 = 36;

/// The lowest severity of the third band.
pub const DEFCON2_FLOOR: u64 = 60;

/// The lowest severity of the highest band.
pub const DEFCON1_FLOOR: u64 = 90;

/// The severity that a weight stands for: the weight in hundredths, rounded
/// down, and 0 for a weight that is not positive.
pub open spec fn severity_of(weight: i64) -> u64 {
    if weight <= 0 {
        0
    } else {
        ((weight * 100) / (WEIGHT_SCALE as int)) as u64
    }
}

impl ThreatBand {
    /// The lowest severity of the band.
    pub open spec fn floor(self) -> u64 {
        match self {
            ThreatBand::Defcon4 => 0,
            ThreatBand::Defcon3 => DEFCON3_FLOOR,
            ThreatBand::Defcon2 => DEFCON2_FLOOR,
            ThreatBand::Defcon1 => DEFCON1_FLOOR,
        }
    }

    /// The band a severity falls into.
    pub open spec fn of(severity: u64) -> ThreatBand {
        if severity >= DEFCON1_FLOOR {
            ThreatBand::Defcon1
        } else if severity >= DEFCON2_FLOOR {
            ThreatBand::Defcon2
        } else if severity >= DEFCON3_FLOOR {
            ThreatBand::Defcon3
        } else {
            ThreatBand::Defcon4
        }
    }

    /// What the node does about a request in the band.
    pub open spec fn action(self) -> ThreatAction {
        if self == ThreatBand::Defcon1 {
            ThreatAction::Drop
        } else {
            ThreatAction::Report
        }
    }

    /// The lowest severity of the band.
    pub fn lowest(self) -> (severity: u64)
        ensures
            severity == self.floor(),
    {
        match self {
            ThreatBand::Defcon4 => 0,
            ThreatBand::Defcon3 => DEFCON3_FLOOR,
            ThreatBand::Defcon2 => DEFCON2_FLOOR,
            ThreatBand::Defcon1 => DEFCON1_FLOOR,
        }
    }

    /// Finds the band a severity falls into.
    pub fn classify(severity: u64) -> (band: ThreatBand)
        ensures
            band == ThreatBand::of(severity),
    {
        if severity >= DEFCON1_FLOOR {
            ThreatBand::Defcon1
        } else if severity >= DEFCON2_FLOOR {
            ThreatBand::Defcon2
        } else if severity >= DEFCON3_FLOOR {
            ThreatBand::Defcon3
        } else {
            ThreatBand::Defcon4
        }
    }

    /// Tells what the node does about a request in the band.
    pub fn response(self) -> (action: ThreatAction)
        ensures
            action == self.action(),
    {
        match self {
            ThreatBand::Defcon1 => ThreatAction::Drop,
            _ => ThreatAction::Report,
        }
    }
}

/// Computes the severity that a weight stands for.
pub fn severity(weight: i64) -> (severity: u64)
    ensures
        severity == severity_of(weight),
{
    if weight <= 0 {
        0
    } else {
        ((weight as u128 * 100u128) / 1_000_000u128) as u64
    }
}

/// The band of a severity is the highest band whose floor the severity
/// reaches, and a request is dropped exactly from severity 90 on.
pub proof fn lemma_bands(severity: u64, band: ThreatBand)
    ensures
        ThreatBand::of(severity).floor() <= severity,
        band.floor() <= severity ==> band.floor() <= ThreatBand::of(severity).floor(),
        ThreatBand::of(severity).action() == ThreatAction::Drop <==> severity >= 90,
{
}

/// A higher weight is never less severe, and the severity of a weight
/// between 0 and 1 lies between 0 and 100.
pub proof fn lemma_severity_monotone(lower: i64, higher: i64)
    requires
        lower <= higher,
    ensures
        severity_of(lower) <= severity_of(higher),
        0 <= higher <= WEIGHT_SCALE ==> severity_of(higher) <= 100,
{
    let scale = WEIGHT_SCALE as int;
    let l = lower as int;
    let h = higher as int;
    if l > 0 {
        assert((l * 100) / scale <= (h * 100) / scale) by (nonlinear_arith)
            requires
                0 < l <= h,
                scale == 1_000_000,
        ;
    }
    if h > 0 {
        assert(0 <= (h * 100) / scale) by (nonlinear_arith)
            requires
                0 < h,
                scale == 1_000_000,
        ;
        assert((h * 100) / scale <= 0x7fff_ffff_ffff_ffff) by (nonlinear_arith)
            requires
                0 < h <= 0x7fff_ffff_ffff_ffff,
                scale == 1_000_000,
        ;
        if h <= scale {
            assert((h * 100) / scale <= 100) by (nonlinear_arith)
                requires
                    0 < h <= scale,
                    scale == 1_000_000,
            ;
        }
    }
}

} // verus!
