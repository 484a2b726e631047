//! SPIR-V structure validation: quick sanity checks on the header —
//! magic number, version range, non-zero bound — before a binary is
//! handed to a driver.  Not a full validator.

use vstd::prelude::*;
use crate::codec::append_str;
use crate::text::{dec_chars, write_dec, hex8_lower_chars, write_hex8_lower};

verus! {

/// What basic validation can find wrong with a SPIR-V binary, checked
/// in this order.
pub enum SpirvIssue {
    TooSmall,
    NotAligned,
    BadMagic(u32),
    BadVersion(u32, u32),
    ZeroBound,
}

/// The 32-bit word at a byte offset, little-endian.
pub open spec fn word_at(b: Seq<u8>, pos: int) -> u32 {
    (b[pos] + b[pos + 1] * 0x100 + b[pos + 2] * 0x10000 + b[pos + 3] * 0x1000000) as u32
}

/// The first issue basic validation finds, or nothing: a header of at
/// least five 32-bit words, four-byte alignment, the SPIR-V magic,
/// a version between 1.0 and 1.6, and a non-zero bound.
pub open spec fn spirv_issue(b: Seq<u8>) -> Option<SpirvIssue> {
    if b.len() < 20 {
        Some(SpirvIssue::TooSmall)
    } else if b.len() % 4 != 0 {
        Some(SpirvIssue::NotAligned)
    } else if word_at(b, 0) != 0x07230203 {
        Some(SpirvIssue::BadMagic(word_at(b, 0)))
    } else {
        let version = word_at(b, 4);
        let major = (version / 0x10000) % 0x100;
        let minor = (version / 0x100) % 0x100;
        if major != 1 || minor > 6 {
            Some(SpirvIssue::BadVersion(major, minor))
        } else if word_at(b, 12) == 0 {
            Some(SpirvIssue::ZeroBound)
        } else {
            None
        }
    }
}

/// The message reported for an issue.
pub open spec fn spirv_issue_chars(b: Seq<u8>, issue: SpirvIssue) -> Seq<char> {
    match issue {
        SpirvIssue::TooSmall => "SPIR-V too small: "@ + dec_chars((b.len() as usize) as nat)
            + " bytes (minimum 20)"@,
        SpirvIssue::NotAligned => "SPIR-V size ("@ + dec_chars((b.len() as usize) as nat)
            + ") not 4-byte aligned"@,
        SpirvIssue::BadMagic(m) => "Invalid SPIR-V magic: 0x"@ + hex8_lower_chars(m)
            + " (expected 0x07230203)"@,
        SpirvIssue::BadVersion(major, minor) => "Unsupported SPIR-V version: "@ + dec_chars(
            major as nat,
        ) + "."@ + dec_chars(minor as nat) + " (supported: 1.0-1.6)"@,
        SpirvIssue::ZeroBound => "SPIR-V bound is 0 (invalid)"@,
    }
}

/// Validate the basic structure of a SPIR-V binary: size, alignment,
/// magic, version range, bound.  Everything past the header is not
/// examined.
pub fn validate_spirv(bytes: &[u8]) -> (r: Result<(), String>)
    ensures
        (match r {
            Ok(()) => spirv_issue(bytes@) is None,
            Err(msg) => spirv_issue(bytes@) matches Some(issue) && msg@ == spirv_issue_chars(
                bytes@,
                issue,
            ),
        }),
{
    if bytes.len() < 20 {
        let mut s = "SPIR-V too small: ".to_owned();
        write_dec(&mut s, bytes.len() as u64);
        append_str(&mut s, " bytes (minimum 20)");
        proof {
            assert(s@ =~= spirv_issue_chars(bytes@, SpirvIssue::TooSmall));
        }
        return Err(s);
    }
    if bytes.len() % 4 != 0 {
        let mut s = "SPIR-V size (".to_owned();
        write_dec(&mut s, bytes.len() as u64);
        append_str(&mut s, ") not 4-byte aligned");
        proof {
            assert(s@ =~= spirv_issue_chars(bytes@, SpirvIssue::NotAligned));
        }
        return Err(s);
    }
    let magic: u32 = bytes[0] as u32 + bytes[1] as u32 * 0x100 + bytes[2] as u32 * 0x10000
        + bytes[3] as u32 * 0x1000000;
    if magic != 0x07230203 {
        let mut s = "Invalid SPIR-V magic: 0x".to_owned();
        write_hex8_lower(&mut s, magic);
        append_str(&mut s, " (expected 0x07230203)");
        proof {
            assert(s@ =~= spirv_issue_chars(bytes@, SpirvIssue::BadMagic(magic)));
        }
        return Err(s);
    }
    let version: u32 = bytes[4] as u32 + bytes[5] as u32 * 0x100 + bytes[6] as u32 * 0x10000
        + bytes[7] as u32 * 0x1000000;
    let major: u32 = (version / 0x10000) % 0x100;
    let minor: u32 = (version / 0x100) % 0x100;
    if major != 1 || minor > 6 {
        let mut s = "Unsupported SPIR-V version: ".to_owned();
        write_dec(&mut s, major as u64);
        append_str(&mut s, ".");
        write_dec(&mut s, minor as u64);
        append_str(&mut s, " (supported: 1.0-1.6)");
        proof {
            assert(s@ =~= spirv_issue_chars(bytes@, SpirvIssue::BadVersion(major, minor)));
        }
        return Err(s);
    }
    let bound: u32 = bytes[12] as u32 + bytes[13] as u32 * 0x100 + bytes[14] as u32 * 0x10000
        + bytes[15] as u32 * 0x1000000;
    if bound == 0 {
        return Err("SPIR-V bound is 0 (invalid)".to_owned());
    }
    Ok(())
}

/// A quick check: do the bytes even begin with the SPIR-V magic?
pub fn is_spirv(bytes: &[u8]) -> (r: bool)
    ensures
        r == (bytes@.len() >= 4 && bytes@[0] == 0x03u8 && bytes@[1] == 0x02u8 && bytes@[2]
            == 0x23u8 && bytes@[3] == 0x07u8),
{
    bytes.len() >= 4 && bytes[0] == 0x03 && bytes[1] == 0x02 && bytes[2] == 0x23 && bytes[3] == 0x07
}

} // verus!
