//! The output encodings the renderer can be asked for, and the parsing of
//! their names. Case folding is over ASCII bytes, matching how the format
//! name arrives on a command line.

use vstd::prelude::*;
use vstd::string::*;

verus! {

/// The ASCII-lowercase image of a byte.
pub open spec fn lower_byte(b: u8) -> u8 {
    if 65 <= b <= 90 {
        (b + 32) as u8
    } else {
        b
    }
}

/// Byte strings equal up to ASCII case.
pub open spec fn eq_ignore_case_bytes(a: Seq<u8>, b: Seq<u8>) -> bool {
    a.len() == b.len() && forall|i: int| 0 <= i < a.len() ==> lower_byte(a[i]) == lower_byte(b[i])
}

/// Compares two strings byte by byte, folding ASCII letters to lower case.
fn eq_ignore_ascii_case(a: &str, b: &str) -> (r: bool)
    ensures
        r == eq_ignore_case_bytes(a.spec_bytes(), b.spec_bytes()),
{
    let ab = a.as_bytes();
    let bb = b.as_bytes();
    if ab.len() != bb.len() {
        return false;
    }
    for i in 0..ab.len()
        invariant
            ab@ == a.spec_bytes(),
            bb@ == b.spec_bytes(),
            ab@.len() == bb@.len(),
            forall|k: int| 0 <= k < i ==> lower_byte(ab@[k]) == lower_byte(bb@[k]),
    {
        let x = ab[i];
        let y = bb[i];
        let xl = if 65 <= x && x <= 90 { x + 32 } else { x };
        let yl = if 65 <= y && y <= 90 { y + 32 } else { y };
        if xl != yl {
            return false;
        }
    }
    true
}

#[derive(Debug, Clone, Copy, PartialEq, Eq, Structural)]
pub enum OutputFormat {
    Exr,
    Qoi,
    Png,
}

impl OutputFormat {
    /// The file extension conventionally used for this encoding.
    pub fn default_file_extension(&self) -> (r: &'static str)
        ensures
            r@ == (match self {
                OutputFormat::Exr => "exr"@,
                OutputFormat::Qoi => "qoi"@,
                OutputFormat::Png => "png"@,
            }),
    {
        match self {
            OutputFormat::Exr => "exr",
            OutputFormat::Qoi => "qoi",
            OutputFormat::Png => "png",
        }
    }
}

impl core::str::FromStr for OutputFormat {
    type Err = String;

    /// Recognizes a format name up to ASCII case; anything else is reported
    /// back as unsupported.
    fn from_str(s: &str) -> Result<Self, Self::Err> {
        if eq_ignore_ascii_case(s, "exr") {
            Ok(OutputFormat::Exr)
        } else if eq_ignore_ascii_case(s, "qoi") {
            Ok(OutputFormat::Qoi)
        } else if eq_ignore_ascii_case(s, "png") {
            Ok(OutputFormat::Png)
        } else {
            let mut msg = String::new();
            msg.append("unsupported output format: ");
            msg.append(s);
            Err(msg)
        }
    }
}

} // verus!
