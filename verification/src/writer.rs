//! Writing values into the target: what a completed write means, and the
//! messages that report a failed one.

use vstd::prelude::*;
use crate::format::{decimal, hex_upper, push_decimal, push_hex_upper, push_str};
use crate::text::string_from_chars;

verus! {

/// The message of a write that was refused at `address` for `reason`.
pub open spec fn write_failed_text(address: u64, reason: Seq<char>) -> Seq<char> {
    "WriteProcessMemory failed at 0x"@ + hex_upper(address as nat) + ": "@ + reason
}

/// The message of a write at `address` that wrote `written` of `expected` bytes.
pub open spec fn partial_write_text(written: nat, expected: nat, address: u64) -> Seq<char> {
    "Partial write: "@ + decimal(written) + "/"@ + decimal(expected) + " bytes at 0x"@ + hex_upper(address as nat)
}

/// The message of a write that was refused at `address` for `reason`.
pub fn write_failed_message(address: u64, reason: &str) -> (r: String)
    ensures
        r@ == write_failed_text(address, reason@),
{
    let mut out: Vec<char> = Vec::new();
    push_str(&mut out, "WriteProcessMemory failed at 0x");
    push_hex_upper(&mut out, address);
    push_str(&mut out, ": ");
    push_str(&mut out, reason);
    string_from_chars(out.as_slice())
}

/// The outcome of a write of `expected` bytes at `address` that the target
/// accepted, `bytes_written` of them being written: success only when all
/// were written.
pub fn write_result(address: u64, expected: usize, bytes_written: usize) -> (r: Result<(), String>)
    ensures
        bytes_written == expected <==> r is Ok,
        r matches Err(m) ==> m@ == partial_write_text(bytes_written as nat, expected as nat, address),
{
    if bytes_written != expected {
        let mut out: Vec<char> = Vec::new();
        push_str(&mut out, "Partial write: ");
        push_decimal(&mut out, bytes_written as u64);
        push_str(&mut out, "/");
        push_decimal(&mut out, expected as u64);
        push_str(&mut out, " bytes at 0x");
        push_hex_upper(&mut out, address);
        return Err(string_from_chars(out.as_slice()));
    }
    Ok(())
}

} // verus!
