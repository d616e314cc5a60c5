//! What the conversion of written archives by an office suite needs to
//! know: which files of a directory are archives to convert, and the
//! arguments of the converter for one of them. Running the converter is
//! left to the caller.

use vstd::prelude::*;
use crate::text::chars_of;

verus! {

/// Whether two characters are the same ASCII letter in either case, `lower`
/// being the lower-case one.
pub open spec fn same_letter(c: char, lower: char) -> bool {
    c == lower || c as u32 + 32 == lower as u32
}

/// Whether a file name has the extension `docx`, in any mix of cases: it
/// ends in a full stop and those four letters, and something stands before
/// the full stop.
pub open spec fn is_docx_name(name: Seq<char>) -> bool {
    let n = name.len() as int;
    &&& n >= 6
    &&& name[n - 5] == '.'
    &&& same_letter(name[n - 4], 'd')
    &&& same_letter(name[n - 3], 'o')
    &&& same_letter(name[n - 2], 'c')
    &&& same_letter(name[n - 1], 'x')
}

fn is_letter(c: char, lower: char) -> (b: bool)
    requires
        'a' <= lower <= 'z',
    ensures
        b == same_letter(c, lower),
{
    c == lower || c as u32 + 32 == lower as u32
}

/// Whether the file of this name is an archive to convert.
pub fn has_docx_extension(file_name: &str) -> (b: bool)
    ensures
        b == is_docx_name(file_name@),
{
    let name = chars_of(file_name);
    let n = name.len();
    n >= 6 && name[n - 5] == '.' && is_letter(name[n - 4], 'd') && is_letter(name[n - 3], 'o')
        && is_letter(name[n - 2], 'c') && is_letter(name[n - 1], 'x')
}

/// The views of the elements of a vector of strings.
pub open spec fn strings_of(v: Seq<String>) -> Seq<Seq<char>> {
    Seq::new(v.len(), |i: int| v[i]@)
}

/// The arguments with which the converter turns one archive into a PDF file
/// in the directory `out_dir`, without a window.
pub fn conversion_arguments(out_dir: &str, file: &str) -> (args: Vec<String>)
    ensures
        strings_of(args@) == seq![
            "--headless"@,
            "--convert-to"@,
            "pdf"@,
            "--outdir"@,
            out_dir@,
            file@,
        ],
{
    let mut args: Vec<String> = Vec::new();
    args.push(String::from_str("--headless"));
    args.push(String::from_str("--convert-to"));
    args.push(String::from_str("pdf"));
    args.push(String::from_str("--outdir"));
    args.push(String::from_str(out_dir));
    args.push(String::from_str(file));
    assert(strings_of(args@) =~= seq![
        "--headless"@,
        "--convert-to"@,
        "pdf"@,
        "--outdir"@,
        out_dir@,
        file@,
    ]);
    args
}

} // verus!
