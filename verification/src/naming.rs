//! Names of output files.

use vstd::prelude::*;
use vstd::string::*;
use crate::text::chars_of;
use crate::text::string_of;

verus! {

/// Whether `char::is_alphanumeric` of std holds of a character: it is a
/// letter or a number of Unicode.
pub uninterp spec fn alphanumeric(c: char) -> bool;

/// Whether a character is an ASCII letter or digit.
pub open spec fn ascii_alphanumeric(c: char) -> bool {
    ('a' <= c && c <= 'z') || ('A' <= c && c <= 'Z') || ('0' <= c && c <= '9')
}

/// `char::is_alphanumeric` of std. Among the ASCII characters it holds of
/// the letters and the digits and of no other.
#[verifier::external_body]
fn is_alphanumeric(c: char) -> (b: bool)
    ensures
        b == alphanumeric(c),
        c as u32 <= 0x7f ==> b == ascii_alphanumeric(c),
{
    c.is_alphanumeric()
}

/// The safe form of `name[i..]`: a space becomes an underscore, letters,
/// digits and underscores stay, and every other character is left out.
pub open spec fn safe_from(name: Seq<char>, i: int) -> Seq<char>
    decreases name.len() - i,
{
    if i < 0 || i >= name.len() {
        Seq::empty()
    } else if name[i] == ' ' {
        seq!['_'] + safe_from(name, i + 1)
    } else if name[i] == '_' || alphanumeric(name[i]) {
        seq![name[i]] + safe_from(name, i + 1)
    } else {
        safe_from(name, i + 1)
    }
}

/// Whether a character may stand in a file name: a letter, a digit or an
/// underscore.
pub open spec fn safe_char(c: char) -> bool {
    c == '_' || alphanumeric(c)
}

/// The safe form of a record's name, for use in a file name. It holds only
/// letters, digits and underscores.
pub fn safe_name(name: &str) -> (out: String)
    ensures
        out@ == safe_from(name@, 0),
        forall|k: int| 0 <= k < out@.len() ==> safe_char(#[trigger] out@[k]),
        forall|k: int|
            0 <= k < out@.len() ==> (#[trigger] out@[k]) != ',' && out@[k] != '.' && out@[k]
                != '/' && out@[k] != ' ',
{
    let chars = chars_of(name);
    let mut out: Vec<char> = Vec::new();
    let mut i: usize = 0;
    assert(out@ + safe_from(name@, 0) =~= safe_from(name@, 0));
    while i < chars.len()
        invariant
            i <= chars@.len(),
            chars@ == name@,
            out@ + safe_from(name@, i as int) == safe_from(name@, 0),
            forall|k: int| 0 <= k < out@.len() ==> safe_char(#[trigger] out@[k]),
            forall|k: int|
                0 <= k < out@.len() ==> (#[trigger] out@[k]) != ',' && out@[k] != '.' && out@[k]
                    != '/' && out@[k] != ' ',
        decreases chars@.len() - i,
    {
        let c = chars[i];
        let ghost before = out@;
        let ghost rest = safe_from(name@, i + 1);
        if c == ' ' {
            out.push('_');
            assert(before.push('_') + rest =~= before + (seq!['_'] + rest));
        } else if c == '_' {
            out.push(c);
            assert(before.push(c) + rest =~= before + (seq![c] + rest));
        } else if is_alphanumeric(c) {
            out.push(c);
            assert(before.push(c) + rest =~= before + (seq![c] + rest));
        }
        i += 1;
    }
    assert(out@ + Seq::<char>::empty() =~= out@);
    string_of(out.as_slice())
}

/// The name of the output file of a record: the safe form of the record's
/// name, a full stop and the extension. The stem before that full stop holds
/// only letters, digits and underscores.
pub fn output_file_name(name: &str, extension: &str) -> (out: String)
    ensures
        out@ == safe_from(name@, 0) + seq!['.'] + extension@,
        forall|k: int|
            0 <= k < safe_from(name@, 0).len() ==> safe_char(#[trigger] out@[k]) && out@[k] != ','
                && out@[k] != '.' && out@[k] != '/' && out@[k] != ' ',
{
    let mut out = safe_name(name);
    let ghost stem = out@;
    out.push('.');
    out.append(extension);
    assert(out@ =~= stem + seq!['.'] + extension@);
    assert forall|k: int| 0 <= k < stem.len() implies safe_char(#[trigger] out@[k]) && out@[k]
        != ',' && out@[k] != '.' && out@[k] != '/' && out@[k] != ' ' by {
        assert(out@[k] == stem[k]);
    }
    out
}

} // verus!
