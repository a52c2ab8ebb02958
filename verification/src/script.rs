//! Classification of output locking scripts into the standard templates.
//!
//! Each template is a fixed byte pattern; an empty script marks a fee
//! output.  The checks follow Script's template tests: a script is
//! provably unspendable when it starts with OP_RETURN (0x6a), exceeds the
//! consensus size limit of 10,000 bytes, or is empty.
use vstd::prelude::*;

verus! {

/// The standard locking-script templates.
#[derive(Clone, Copy, PartialEq, Eq, Structural, Debug)]
pub enum ScriptType {
    Fee,
    OpReturn,
    P2pk,
    P2pkh,
    P2sh,
    V0P2wpkh,
    V0P2wsh,
    ProvablyUnspendable,
    Unknown,
}

pub open spec fn is_op_return(s: Seq<u8>) -> bool {
    s.len() > 0 && s[0] == 0x6a
}

pub open spec fn is_p2pk(s: Seq<u8>) -> bool {
    (s.len() == 67 && s[0] == 0x41 && s[66] == 0xac) || (s.len() == 35 && s[0] == 0x21 && s[34]
        == 0xac)
}

pub open spec fn is_p2pkh(s: Seq<u8>) -> bool {
    s.len() == 25 && s[0] == 0x76 && s[1] == 0xa9 && s[2] == 0x14 && s[23] == 0x88 && s[24] == 0xac
}

pub open spec fn is_p2sh(s: Seq<u8>) -> bool {
    s.len() == 23 && s[0] == 0xa9 && s[1] == 0x14 && s[22] == 0x87
}

pub open spec fn is_v0_p2wpkh(s: Seq<u8>) -> bool {
    s.len() == 22 && s[0] == 0 && s[1] == 0x14
}

pub open spec fn is_v0_p2wsh(s: Seq<u8>) -> bool {
    s.len() == 34 && s[0] == 0 && s[1] == 0x20
}

pub open spec fn is_provably_unspendable(s: Seq<u8>) -> bool {
    (s.len() > 0 && s[0] == 0x6a) || s.len() > 10000 || s.len() == 0
}

/// The first template a script matches, fee and OP_RETURN before the
/// address-bearing shapes, unspendability last.
pub open spec fn classify_spec(s: Seq<u8>) -> ScriptType {
    if s.len() == 0 {
        ScriptType::Fee
    } else if is_op_return(s) {
        ScriptType::OpReturn
    } else if is_p2pk(s) {
        ScriptType::P2pk
    } else if is_p2pkh(s) {
        ScriptType::P2pkh
    } else if is_p2sh(s) {
        ScriptType::P2sh
    } else if is_v0_p2wpkh(s) {
        ScriptType::V0P2wpkh
    } else if is_v0_p2wsh(s) {
        ScriptType::V0P2wsh
    } else if is_provably_unspendable(s) {
        ScriptType::ProvablyUnspendable
    } else {
        ScriptType::Unknown
    }
}

/// Classify a locking script.
pub fn classify(script: &Vec<u8>) -> (r: ScriptType)
    ensures
        r == classify_spec(script@),
{
    let n = script.len();
    if n == 0 {
        return ScriptType::Fee;
    }
    if script[0] == 0x6a {
        return ScriptType::OpReturn;
    }
    if (n == 67 && script[0] == 0x41 && script[66] == 0xac) || (n == 35 && script[0] == 0x21
        && script[34] == 0xac) {
        return ScriptType::P2pk;
    }
    if n == 25 && script[0] == 0x76 && script[1] == 0xa9 && script[2] == 0x14 && script[23] == 0x88
        && script[24] == 0xac {
        return ScriptType::P2pkh;
    }
    if n == 23 && script[0] == 0xa9 && script[1] == 0x14 && script[22] == 0x87 {
        return ScriptType::P2sh;
    }
    if n == 22 && script[0] == 0 && script[1] == 0x14 {
        return ScriptType::V0P2wpkh;
    }
    if n == 34 && script[0] == 0 && script[1] == 0x20 {
        return ScriptType::V0P2wsh;
    }
    if n > 10000 {
        return ScriptType::ProvablyUnspendable;
    }
    ScriptType::Unknown
}

} // verus!
