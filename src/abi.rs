//! OS-ABI tags of the ELF header and their compatibility.

use vstd::prelude::*;
use vstd::string::*;

verus! {

/// The generic System V tag, compatible with every other tag.
pub const ELFOSABI_SYSV: u8 = 0;

/// Two tags are compatible when either is the generic tag or both are equal.
pub open spec fn compatible(wanted: u8, got: u8) -> bool {
    wanted == ELFOSABI_SYSV || got == ELFOSABI_SYSV || wanted == got
}

/// Checks if two OS ABIs are compatible.
pub fn osabi_are_compatible(wanted: u8, got: u8) -> (r: bool)
    ensures
        r == compatible(wanted, got),
{
    if wanted == ELFOSABI_SYSV || got == ELFOSABI_SYSV {
        return true;
    }
    wanted == got
}

/// The decimal digits of `n`.
pub open spec fn decimal(n: nat) -> Seq<char>
    decreases n,
{
    if n < 10 {
        seq![digit(n)]
    } else {
        decimal(n / 10).push(digit(n % 10))
    }
}

pub open spec fn digit(d: nat) -> char {
    ((48 + d) as u8) as char
}

/// The name of a tag, for messages.
pub open spec fn osabi_name(abi: u8) -> Seq<char> {
    if abi == 0 {
        "ELFOSABI_SYSV"@
    } else if abi == 1 {
        "ELFOSABI_HPUX"@
    } else if abi == 2 {
        "ELFOSABI_NETBSD"@
    } else if abi == 3 {
        "ELFOSABI_LINUX"@
    } else if abi == 6 {
        "ELFOSABI_SOLARIS"@
    } else if abi == 7 {
        "ELFOSABI_AIX"@
    } else if abi == 8 {
        "ELFOSABI_IRIX"@
    } else if abi == 9 {
        "ELFOSABI_FREEBSD"@
    } else if abi == 10 {
        "ELFOSABI_TRU64"@
    } else if abi == 11 {
        "ELFOSABI_MODESTO"@
    } else if abi == 12 {
        "ELFOSABI_OPENBSD"@
    } else {
        "unknown_"@ + decimal(abi as nat)
    }
}

/// Relies on `String::push`: appends one character.
#[verifier::external_body]
fn push_char(s: &mut String, c: char)
    ensures
        final(s)@ == old(s)@.push(c),
{
    s.push(c)
}

fn push_decimal(s: &mut String, n: u8)
    ensures
        final(s)@ == old(s)@ + decimal(n as nat),
    decreases n,
{
    if n >= 10 {
        push_decimal(s, n / 10);
    }
    push_char(s, (48u8 + n % 10) as char);
    assert(final(s)@ =~= old(s)@ + decimal(n as nat));
}

/// Gets the name of an OS-ABI tag.
pub fn osabi_to_string(abi: u8) -> (r: String)
    ensures
        r@ == osabi_name(abi),
{
    let name = match abi {
        0 => "ELFOSABI_SYSV",
        1 => "ELFOSABI_HPUX",
        2 => "ELFOSABI_NETBSD",
        3 => "ELFOSABI_LINUX",
        6 => "ELFOSABI_SOLARIS",
        7 => "ELFOSABI_AIX",
        8 => "ELFOSABI_IRIX",
        9 => "ELFOSABI_FREEBSD",
        10 => "ELFOSABI_TRU64",
        11 => "ELFOSABI_MODESTO",
        12 => "ELFOSABI_OPENBSD",
        _ => {
            let mut r = "unknown_".to_owned();
            push_decimal(&mut r, abi);
            return r;
        },
    };
    name.to_owned()
}

/// Compatibility is reflexive, symmetric, and holds whenever either side is
/// the generic tag.
pub proof fn lemma_compatibility_laws(a: u8, b: u8)
    ensures
        compatible(a, a),
        compatible(a, b) == compatible(b, a),
        compatible(ELFOSABI_SYSV, b),
        compatible(a, ELFOSABI_SYSV),
{
}

} // verus!
