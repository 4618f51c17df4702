use cargo_specification::comment_parser::{parse_code, parse_file};
use cargo_specification::model::ParseError;

#[test]
fn prose_only() {
    let out = parse_code("//~", "//~ Hello\n//~ World\n").unwrap();
    assert_eq!(out, "Hello\nWorld\n");
}

#[test]
fn plain_line_between_prose_inserts_separator() {
    let out = parse_code("//~", "//~ intro\nlet x = 1;\n//~ after\n").unwrap();
    assert_eq!(out, "intro\n\n\nafter\n");
}

#[test]
fn code_region_is_fenced() {
    let input = "//~ before\n//~ spec:startcode\nlet x = 1;\nlet y = 2;\n//~ spec:endcode\n//~ after\n";
    let out = parse_code("//~", input).unwrap();
    assert_eq!(out, "before\n```rust\nlet x = 1;\nlet y = 2;\n```\n\n\nafter\n");
}

#[test]
fn unterminated_region_fails() {
    let r = parse_code("//~", "//~ spec:startcode\nlet x = 1;\n");
    assert_eq!(r.unwrap_err(), ParseError::UnterminatedCode);
}

#[test]
fn stray_endcode_fails() {
    let r = parse_code("//~", "//~ spec:endcode\n");
    assert_eq!(r.unwrap_err(), ParseError::EndOutsideCode);
}

#[test]
fn nested_startcode_fails() {
    let r = parse_code("//~", "//~ spec:startcode\n//~ spec:startcode\n");
    assert_eq!(r.unwrap_err(), ParseError::StartInsideCode);
}

#[test]
fn unknown_instruction_fails() {
    let r = parse_code("//~", "//~ spec:tableofcontents\n");
    assert_eq!(r.unwrap_err(), ParseError::UnknownInstruction);
}

#[test]
fn empty_instruction_fails() {
    let r = parse_code("//~", "//~ spec:\n");
    assert_eq!(r.unwrap_err(), ParseError::UnknownInstruction);
}

#[test]
fn instruction_prefix_alone_is_checked_exactly() {
    let r = parse_code("//~", "//~ spec:startcodex\n");
    assert_eq!(r.unwrap_err(), ParseError::UnknownInstruction);
}

#[test]
fn instruction_is_case_sensitive() {
    let r = parse_code("//~", "//~ spec:Startcode\n");
    assert_eq!(r.unwrap_err(), ParseError::UnknownInstruction);
}

#[test]
fn instruction_tolerates_surrounding_whitespace() {
    let out = parse_code("//~", "//~   spec:startcode  \nlet a = 0;\n//~ spec:endcode\n").unwrap();
    assert_eq!(out, "```rust\nlet a = 0;\n```\n");
}

#[test]
fn plain_lines_outside_code_region_are_dropped() {
    let out = parse_code("//~", "fn main() {}\nlet a = 1;\n").unwrap();
    assert_eq!(out, "");
}

#[test]
fn empty_input_yields_empty_output() {
    let out = parse_code("//~", "").unwrap();
    assert_eq!(out, "");
}

#[test]
fn delimiter_not_at_line_start_is_plain() {
    let out = parse_code("//~", "let a = 1; //~ not spec\n//~ real\n").unwrap();
    assert_eq!(out, "\n\nreal\n");
}

#[test]
fn indented_delimiter_is_spec() {
    let out = parse_code("//~", "   //~ indented\n").unwrap();
    assert_eq!(out, "indented\n");
}

#[test]
fn empty_payload_is_empty_prose() {
    let out = parse_code("//~", "//~\n//~   \n").unwrap();
    assert_eq!(out, "\n\n");
}

#[test]
fn payload_is_trimmed() {
    let out = parse_code("//~", "//~    spaced out   \n").unwrap();
    assert_eq!(out, "spaced out\n");
}

#[test]
fn crlf_line_endings_are_handled() {
    let out = parse_code("//~", "//~ a\r\n//~ b\r\n").unwrap();
    assert_eq!(out, "a\nb\n");
}

#[test]
fn last_line_without_newline_is_kept() {
    let out = parse_code("//~", "//~ last").unwrap();
    assert_eq!(out, "last\n");
}

#[test]
fn code_lines_are_copied_verbatim() {
    let input = "//~ spec:startcode\n    indented();\n\ttabbed();\n//~ spec:endcode\n";
    let out = parse_code("//~", input).unwrap();
    assert_eq!(out, "```rust\n    indented();\n\ttabbed();\n```\n");
}

#[test]
fn other_delimiters_work() {
    let out = parse_code("#~", "#~ hello\ncode\n#~ world\n").unwrap();
    assert_eq!(out, "hello\n\n\nworld\n");
}

#[test]
fn markdown_file_passes_through() {
    let contents = "# Title\n\n//~ this is not scanned\nplain text\n";
    let out = parse_file("//~", "notes.md", contents).unwrap();
    assert_eq!(out, contents);
}

#[test]
fn non_markdown_file_is_scanned() {
    let out = parse_file("//~", "src/lib.rs", "//~ doc\nfn f() {}\n").unwrap();
    assert_eq!(out, "doc\n");
}

#[test]
fn extension_match_is_case_sensitive() {
    let out = parse_file("//~", "NOTES.MD", "//~ doc\nplain\n").unwrap();
    assert_eq!(out, "doc\n");
}

#[test]
fn missing_extension_fails() {
    let r = parse_file("//~", "Makefile", "all:\n");
    assert_eq!(r.unwrap_err(), ParseError::MissingExtension);
}

#[test]
fn hidden_file_without_extension_fails() {
    let r = parse_file("//~", ".gitignore", "target\n");
    assert_eq!(r.unwrap_err(), ParseError::MissingExtension);
}

#[test]
fn dot_in_directory_does_not_count_as_extension() {
    let r = parse_file("//~", "dir.d/file", "x\n");
    assert_eq!(r.unwrap_err(), ParseError::MissingExtension);
}

#[test]
fn last_extension_wins() {
    let contents = "# archived\n";
    let out = parse_file("//~", "notes.md.txt", contents).unwrap();
    assert_eq!(out, "");
    let out = parse_file("//~", "notes.txt.md", contents).unwrap();
    assert_eq!(out, contents);
}

#[test]
fn error_descriptions_name_the_failure() {
    assert_eq!(
        ParseError::StartInsideCode.describe(),
        "cannot startcode when already started"
    );
    assert_eq!(
        ParseError::EndOutsideCode.describe(),
        "cannot endcode if haven't startcode before"
    );
    assert_eq!(ParseError::UnknownInstruction.describe(), "unimplemented instruction");
    assert_eq!(
        ParseError::UnterminatedCode.describe(),
        "a spec:startcode was left open ended"
    );
    assert_eq!(
        ParseError::MissingExtension.describe(),
        "can only parse files that have an extension"
    );
}
