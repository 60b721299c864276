use vstd::prelude::*;

use crate::coordinator::AdminCommand;
use crate::errors::CoreError;

verus! {

/// How an admin command name resolves: exactly the three known names,
/// case-sensitively; anything else is unsupported.
pub open spec fn spec_parse_command(s: Seq<char>) -> Result<AdminCommand, CoreError> {
    if s == "reset"@ {
        Ok(AdminCommand::Reset)
    } else if s == "revoke"@ {
        Ok(AdminCommand::Revoke)
    } else if s == "inspect"@ {
        Ok(AdminCommand::Inspect)
    } else {
        Err(CoreError::UnsupportedCommand)
    }
}

/// Byte-for-byte equality of two slices.
fn bytes_eq(a: &[u8], b: &[u8]) -> (r: bool)
    ensures
        r == (a@ =~= b@),
{
    if a.len() != b.len() {
        return false;
    }
    let n = a.len();
    let mut i: usize = 0;
    while i < n
        invariant
            n == a@.len(),
            n == b@.len(),
            0 <= i <= n,
            forall|k: int| 0 <= k < i ==> a@[k] == b@[k],
        decreases n - i,
    {
        if *vstd::slice::slice_index_get(a, i) != *vstd::slice::slice_index_get(b, i) {
            return false;
        }
        i += 1;
    }
    true
}

/// Character sequences with equal UTF-8 encodings are equal.
proof fn lemma_same_bytes_same_chars(s0: Seq<char>, s1: Seq<char>)
    requires
        vstd::utf8::encode_utf8(s0) == vstd::utf8::encode_utf8(s1),
    ensures
        s0 == s1,
{
    vstd::utf8::encode_utf8_decode_utf8(s0);
    vstd::utf8::encode_utf8_decode_utf8(s1);
}

/// Resolves a command name at the request boundary into the closed command
/// enumeration; an unknown name fails with `UnsupportedCommand`.
pub fn parse_admin_command(cmd: &str) -> (r: Result<AdminCommand, CoreError>)
    ensures
        r == spec_parse_command(cmd@),
{
    let cb = cmd.as_bytes();
    if bytes_eq(cb, "reset".as_bytes()) {
        proof {
            lemma_same_bytes_same_chars(cmd@, "reset"@);
        }
        Ok(AdminCommand::Reset)
    } else if bytes_eq(cb, "revoke".as_bytes()) {
        proof {
            lemma_same_bytes_same_chars(cmd@, "revoke"@);
        }
        Ok(AdminCommand::Revoke)
    } else if bytes_eq(cb, "inspect".as_bytes()) {
        proof {
            lemma_same_bytes_same_chars(cmd@, "inspect"@);
        }
        Ok(AdminCommand::Inspect)
    } else {
        proof {
            assert(cmd@ != "reset"@);
            assert(cmd@ != "revoke"@);
            assert(cmd@ != "inspect"@);
        }
        Err(CoreError::UnsupportedCommand)
    }
}

} // verus!
