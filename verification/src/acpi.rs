//! Power control through the tables of the firmware.

use vstd::prelude::*;

verus! {

/// Where the machine is switched off, and what is written there.
#[derive(Debug, Clone, Copy, PartialEq, Eq, Structural)]
pub struct PowerControl {
    pub pm1a_cnt_blk: u32,
    pub slp_typa: u16,
}

/// What became of the table that describes the sleep states.
#[derive(Debug, Clone, Copy, PartialEq, Eq, Structural)]
pub enum Dsdt {
    Missing,
    /// It could not be mapped.
    Unmapped,
    /// It could not be understood.
    Unparsed,
    /// The type of sleep state five, if it is given.
    Parsed(Option<u64>),
}

/// The type that is taken where the table is of no help.
pub const FALLBACK_SLP_TYPA: u16 = 5120;

/// What the tables say: a control block, if there is one, and the sleep state.
pub open spec fn powered(p: PowerControl, block: Option<u64>, dsdt: Dsdt) -> PowerControl {
    PowerControl {
        pm1a_cnt_blk: match block {
            Some(a) => a as u32,
            None => p.pm1a_cnt_blk,
        },
        slp_typa: match dsdt {
            Dsdt::Missing | Dsdt::Parsed(None) => p.slp_typa,
            Dsdt::Unmapped | Dsdt::Unparsed => FALLBACK_SLP_TYPA,
            Dsdt::Parsed(Some(v)) => v as u16,
        },
    }
}

impl PowerControl {
    pub fn new() -> (r: Self)
        ensures
            r == (PowerControl { pm1a_cnt_blk: 0, slp_typa: 0 }),
    {
        PowerControl { pm1a_cnt_blk: 0, slp_typa: 0 }
    }

    pub fn setup_power_control(&mut self, block: Option<u64>, dsdt: Dsdt)
        ensures
            *final(self) == powered(*old(self), block, dsdt),
    {
        match block {
            Some(a) => {
                self.pm1a_cnt_blk = #[verifier::truncate]
                (a as u32);
            },
            None => {},
        }
        match dsdt {
            Dsdt::Missing => {},
            Dsdt::Unmapped | Dsdt::Unparsed => {
                self.slp_typa = FALLBACK_SLP_TYPA;
            },
            Dsdt::Parsed(value) => match value {
                Some(v) => {
                    self.slp_typa = #[verifier::truncate]
                    (v as u16);
                },
                None => {},
            },
        }
    }

    /// The port and the word that switch the machine off.
    pub fn shutdown(&self) -> (r: (u16, u16))
        ensures
            r == (self.pm1a_cnt_blk as u16, self.slp_typa),
    {
        let port: u16 = #[verifier::truncate]
        (self.pm1a_cnt_blk as u16);
        (port, self.slp_typa)
    }
}

/// Hands the tables to `f`, if there are any.
pub fn with_tables<T, R, F: FnOnce(&T) -> R>(tables: &Option<T>, f: F) -> (r: Option<R>)
    requires
        tables matches Some(t) ==> f.requires((&t,)),
    ensures
        match (tables, r) {
            (Some(t), Some(x)) => f.ensures((&t,), x),
            (None, None) => true,
            _ => false,
        },
{
    match tables {
        Some(t) => Some(f(t)),
        None => None,
    }
}

/// Where the tables say how the machine is switched off, that is what is kept; where they
/// cannot be read, a value that most machines take is; and where they say nothing, nothing
/// changes.
pub proof fn lemma_what_tables_say(p: PowerControl, block: Option<u64>, dsdt: Dsdt)
    ensures
        ({
            let q = powered(p, block, dsdt);
            &&& block matches Some(a) ==> (a <= u32::MAX ==> q.pm1a_cnt_blk == a)
            &&& block is None ==> q.pm1a_cnt_blk == p.pm1a_cnt_blk
            &&& dsdt matches Dsdt::Parsed(Some(v)) ==> (0 <= v <= u16::MAX ==> q.slp_typa == v)
            &&& dsdt is Unmapped || dsdt is Unparsed ==> q.slp_typa == 5 * 1024
            &&& dsdt is Missing || dsdt == Dsdt::Parsed(None) ==> q.slp_typa == p.slp_typa
        }),
{
}

} // verus!
