use cargo_specification::comment_parser::{parse_code, parse_file};

#[test]
fn no_spec_lines_means_empty_output() {
    let input = "fn main() {\n    println!(\"hi\");\n}\n";
    assert_eq!(parse_code("//~", input).unwrap(), "");
}

#[test]
fn emission_count_matches_prose_lines() {
    let input = "//~ one\ncode\n//~ two\n//~ spec:startcode\nbody\n//~ spec:endcode\n//~ three\n";
    let out = parse_code("//~", input).unwrap();
    let prose: Vec<&str> = out
        .lines()
        .filter(|l| !l.is_empty() && *l != "```rust" && *l != "```" && *l != "body")
        .collect();
    assert_eq!(prose, vec!["one", "two", "three"]);
}

#[test]
fn fences_balance_and_alternate() {
    let input = "//~ spec:startcode\na\n//~ spec:endcode\n//~ mid\n//~ spec:startcode\nb\n//~ spec:endcode\n";
    let out = parse_code("//~", input).unwrap();
    let mut open = 0;
    let mut closed = 0;
    for l in out.lines() {
        if l == "```rust" {
            assert_eq!(open, closed, "an opening fence must come first");
            open += 1;
        } else if l == "```" {
            assert_eq!(open, closed + 1, "a closing fence must follow an opening one");
            closed += 1;
        }
    }
    assert_eq!(open, 2);
    assert_eq!(closed, 2);
}

#[test]
fn markdown_round_trip_is_idempotent() {
    let input = "//~ title\n//~ spec:startcode\nlet v = 3;\n//~ spec:endcode\n";
    let first = parse_file("//~", "src/main.rs", input).unwrap();
    let second = parse_file("//~", "assembled.md", &first).unwrap();
    assert_eq!(second, first);
    let third = parse_file("//~", "assembled.md", &second).unwrap();
    assert_eq!(third, second);
}

#[test]
fn output_preserves_input_order() {
    let input = "//~ first\n//~ spec:startcode\nalpha();\nbeta();\n//~ spec:endcode\n//~ second\n";
    let out = parse_code("//~", input).unwrap();
    let a = out.find("first").unwrap();
    let b = out.find("alpha();").unwrap();
    let c = out.find("beta();").unwrap();
    let d = out.find("second").unwrap();
    assert!(a < b && b < c && c < d);
}

#[test]
fn separator_appears_once_per_plain_run() {
    let input = "//~ a\nx\ny\nz\n//~ b\n//~ c\n";
    let out = parse_code("//~", input).unwrap();
    assert_eq!(out, "a\n\n\nb\nc\n");
}

#[test]
fn no_separator_before_prose_at_start_of_file() {
    let input = "//~ first\nplain\n";
    let out = parse_code("//~", input).unwrap();
    assert_eq!(out, "first\n");
}

#[test]
fn separator_after_leading_plain_run() {
    let input = "plain\n//~ first\n";
    let out = parse_code("//~", input).unwrap();
    assert_eq!(out, "\n\nfirst\n");
}
