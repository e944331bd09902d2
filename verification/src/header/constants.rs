//! Universal class tag assignments of Rec. ITU-T X.680, clause 8, table 1.

use vstd::prelude::*;

verus! {

pub const TAG_BOOLEAN: u32 = 0x1;

pub const TAG_INTEGER: u32 = 0x2;

pub const TAG_BIT_STRING: u32 = 0x3;

pub const TAG_OCTET_STRING: u32 = 0x4;

pub const TAG_NULL: u32 = 0x5;

pub const TAG_OID: u32 = 0x6;

pub const TAG_ENUMERATED: u32 = 0xa;

pub const TAG_UTF8_STRING: u32 = 0xc;

pub const TAG_SEQUENCE: u32 = 0x10;

pub const TAG_SET: u32 = 0x11;

} // verus!
