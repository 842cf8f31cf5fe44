//! Instruction codes reserved for the contract-validation instruction-set
//! extension of the embedded script engine. Only this extension is permitted
//! in validation scripts; more may be allowed in the future via
//! fast-forwards.

use vstd::prelude::*;

verus! {

// Contract global and owned state checks.
pub const INSTR_CNP: u8 = 0b11_000_000;
pub const INSTR_CNS: u8 = 0b11_000_001;
pub const INSTR_CNG: u8 = 0b11_000_010;
pub const INSTR_CNC: u8 = 0b11_000_011;

// State loading.
pub const INSTR_LDP: u8 = 0b11_000_100;
pub const INSTR_LDS: u8 = 0b11_000_101;
pub const INSTR_LDF: u8 = 0b11_000_110;

pub const INSTR_LDG: u8 = 0b11_001_000;
pub const INSTR_LDC: u8 = 0b11_001_001;
pub const INSTR_LDM: u8 = 0b11_001_010;

// Pedersen commitment verification.
pub const INSTR_PCVS: u8 = 0b11_010_000;
pub const INSTR_PCCS: u8 = 0b11_010_001;

// Bounds of the single instruction-set-extension block that validation
// scripts may use.
pub const INSTR_ISAE_FROM: u8 = 0b11_000_000;
pub const INSTR_ISAE_TO: u8 = 0b11_000_000;

} // verus!
