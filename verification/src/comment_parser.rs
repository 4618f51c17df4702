//! The public face of the extractor: extraction from a file's contents, and
//! dispatch on the file's extension.

use vstd::prelude::*;
use crate::model::{extension_of, extract_code_spec, extract_file_spec, ParseError};
use crate::scanner::scan_lines;
use crate::text::{region_eq, rfind_char, split_lines_exec};

verus! {

impl ParseError {
    /// The diagnostic wording of each error.
    pub open spec fn message_of(self) -> Seq<char> {
        match self {
            ParseError::MissingExtension => "can only parse files that have an extension"@,
            ParseError::StartInsideCode => "cannot startcode when already started"@,
            ParseError::EndOutsideCode => "cannot endcode if haven't startcode before"@,
            ParseError::UnknownInstruction => "unimplemented instruction"@,
            ParseError::UnterminatedCode => "a spec:startcode was left open ended"@,
        }
    }

    /// A description of the error, for diagnostics.
    pub fn describe(&self) -> (r: String)
        ensures
            r@ == self.message_of(),
    {
        match self {
            ParseError::MissingExtension => "can only parse files that have an extension".to_owned(),
            ParseError::StartInsideCode => "cannot startcode when already started".to_owned(),
            ParseError::EndOutsideCode => "cannot endcode if haven't startcode before".to_owned(),
            ParseError::UnknownInstruction => "unimplemented instruction".to_owned(),
            ParseError::UnterminatedCode => "a spec:startcode was left open ended".to_owned(),
        }
    }
}

/// Extract the specification content embedded in source code: the payloads of
/// the lines that start, after leading whitespace, with `delimiter`, and the
/// code regions that `spec:startcode` and `spec:endcode` mark.
pub fn parse_code(delimiter: &str, contents: &str) -> (r: Result<String, ParseError>)
    requires
        delimiter@.len() > 0,
    ensures
        ({
            let m = extract_code_spec(contents@, delimiter@);
            &&& m is Ok ==> r is Ok && r->Ok_0@ == m->Ok_0
            &&& m is Err ==> r is Err && r->Err_0 == m->Err_0
        }),
{
    let lines = split_lines_exec(contents);
    scan_lines(delimiter, &lines)
}

/// Extract the specification content of one file, given its path and its
/// contents: a Markdown file passes through unchanged, any other file goes
/// through [`parse_code`], and a path without an extension is an error.
pub fn parse_file(delimiter: &str, file_name: &str, contents: &str) -> (r: Result<
    String,
    ParseError,
>)
    requires
        delimiter@.len() > 0,
    ensures
        ({
            let m = extract_file_spec(delimiter@, file_name@, contents@);
            &&& m is Ok ==> r is Ok && r->Ok_0@ == m->Ok_0
            &&& m is Err ==> r is Err && r->Err_0 == m->Err_0
        }),
{
    let n: usize = file_name.unicode_len();
    let start: usize = match rfind_char(file_name, '/') {
        Some(i) => i + 1,
        None => 0,
    };
    proof {
        assert(crate::model::file_name_of(file_name@) =~= file_name@.skip(start as int));
    }
    let name = file_name.substring_char(start, n);
    proof {
        assert(name@ =~= file_name@.skip(start as int));
        assert(name@ == crate::model::file_name_of(file_name@));
    }
    let dot = rfind_char(name, '.');
    match dot {
        None => Err(ParseError::MissingExtension),
        Some(di) => {
            if di == 0 {
                Err(ParseError::MissingExtension)
            } else {
                let nlen: usize = name.unicode_len();
                let is_md = region_eq(name, di + 1, nlen, "md");
                proof {
                    assert(extension_of(file_name@) == Some(name@.skip(di + 1)));
                    assert(name@.skip(di + 1) =~= name@.subrange(di + 1, nlen as int));
                }
                if is_md {
                    Ok(contents.to_owned())
                } else {
                    parse_code(delimiter, contents)
                }
            }
        },
    }
}

} // verus!
