//! Errors raised while reading, editing or writing a `.dat`.

use vstd::prelude::*;
use vstd::string::StringExecFns;

verus! {

#[verifier::external_type_specification]
#[verifier::external_body]
pub struct ExUtf8Error(std::str::Utf8Error);

/// What can go wrong.  File I/O errors are not raised here: this library
/// only ever sees byte buffers.
#[derive(Debug)]
pub enum HsdError {
    /// Header / relocation table read past EOF or pointed at an impossible
    /// offset.  Carries enough context to find the bad byte in a hex viewer.
    Malformed { offset: u64, context: &'static str },
    /// As `Malformed`, with a context built at run time (naming the joint
    /// or alias at fault).
    MalformedText { offset: u64, context: String },
    /// A typed field read past the end of a struct's byte buffer.
    StructOob { at: u32, requested: u32, len: u32 },
    /// A symbol name or class name was not valid UTF-8.
    Utf8 { offset: u64, source: std::str::Utf8Error },
}

pub type Result<T> = core::result::Result<T, HsdError>;

/// Upper-case hexadecimal digit for `d < 16`.
pub open spec fn hex_char(d: int) -> char {
    if d < 10 {
        ('0' as int + d) as char
    } else {
        ('A' as int + d - 10) as char
    }
}

/// Upper-case hexadecimal rendering of `v` without leading zeros.
pub open spec fn hex_upper(v: nat) -> Seq<char>
    decreases v,
{
    if v < 16 {
        seq![hex_char(v as int)]
    } else {
        hex_upper(v / 16) + seq![hex_char((v % 16) as int)]
    }
}

fn hex_digit(d: u64) -> (s: &'static str)
    requires
        d < 16,
    ensures
        s@ == seq![hex_char(d as int)],
{
    match d {
        0 => { proof { reveal_strlit("0"); } "0" },
        1 => { proof { reveal_strlit("1"); } "1" },
        2 => { proof { reveal_strlit("2"); } "2" },
        3 => { proof { reveal_strlit("3"); } "3" },
        4 => { proof { reveal_strlit("4"); } "4" },
        5 => { proof { reveal_strlit("5"); } "5" },
        6 => { proof { reveal_strlit("6"); } "6" },
        7 => { proof { reveal_strlit("7"); } "7" },
        8 => { proof { reveal_strlit("8"); } "8" },
        9 => { proof { reveal_strlit("9"); } "9" },
        10 => { proof { reveal_strlit("A"); } "A" },
        11 => { proof { reveal_strlit("B"); } "B" },
        12 => { proof { reveal_strlit("C"); } "C" },
        13 => { proof { reveal_strlit("D"); } "D" },
        14 => { proof { reveal_strlit("E"); } "E" },
        _ => { proof { reveal_strlit("F"); } "F" },
    }
}

/// Append the upper-case hexadecimal rendering of `v`.
pub fn append_hex(out: &mut String, v: u64)
    ensures
        final(out)@ == old(out)@ + hex_upper(v as nat),
    decreases v,
{
    if v >= 16 {
        append_hex(out, v / 16);
    }
    out.append(hex_digit(v % 16));
}

/// `Utf8Error`'s `Display` text.
#[verifier::external_body]
fn utf8_error_text(e: &std::str::Utf8Error) -> String {
    e.to_string()
}

impl HsdError {
    /// A `Malformed` error at `offset` with `context`.
    pub fn malformed(offset: u64, context: &'static str) -> (e: Self)
        ensures
            e == (HsdError::Malformed { offset, context }),
    {
        HsdError::Malformed { offset, context }
    }

    /// The human-readable text of this error.
    pub fn message(&self) -> (s: String)
        ensures
            self matches HsdError::Malformed { offset, context } ==> s@ == "malformed dat at offset 0x"@
                + hex_upper(offset as nat) + ": "@ + context@,
            self matches HsdError::MalformedText { offset, context } ==> s@ == "malformed dat at offset 0x"@
                + hex_upper(offset as nat) + ": "@ + context@,
            self matches HsdError::StructOob { at, requested, len } ==> s@
                == "read past struct end: requested 0x"@ + hex_upper(requested as nat)
                + " bytes at offset 0x"@ + hex_upper(at as nat) + ", struct length 0x"@
                + hex_upper(len as nat),
            self matches HsdError::Utf8 { offset, source } ==> s@.subrange(
                0,
                ("UTF-8 decode failed for symbol at offset 0x"@ + hex_upper(offset as nat)
                    + ": "@).len() as int,
            ) == "UTF-8 decode failed for symbol at offset 0x"@ + hex_upper(offset as nat) + ": "@,
    {
        let mut s = String::new();
        match self {
            HsdError::Malformed { offset, context } => {
                s.append("malformed dat at offset 0x");
                append_hex(&mut s, *offset);
                s.append(": ");
                s.append(context);
            },
            HsdError::MalformedText { offset, context } => {
                s.append("malformed dat at offset 0x");
                append_hex(&mut s, *offset);
                s.append(": ");
                s.append(context.as_str());
            },
            HsdError::StructOob { at, requested, len } => {
                s.append("read past struct end: requested 0x");
                append_hex(&mut s, *requested as u64);
                s.append(" bytes at offset 0x");
                append_hex(&mut s, *at as u64);
                s.append(", struct length 0x");
                append_hex(&mut s, *len as u64);
            },
            HsdError::Utf8 { offset, source } => {
                s.append("UTF-8 decode failed for symbol at offset 0x");
                append_hex(&mut s, *offset);
                s.append(": ");
                let ghost prefix = s@;
                let text = utf8_error_text(source);
                s.append(text.as_str());
                proof {
                    assert(s@.subrange(0, prefix.len() as int) =~= prefix);
                }
            },
        }
        s
    }
}

} // verus!
