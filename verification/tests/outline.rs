//! Outlining Markdown and C.

use sztools::lines::Newlines;
use sztools::outline::c_source::{
    count_braces, ends_with_identifier, extract_function_signature, extract_last_identifier,
    normalize_signature, parse_c, parse_include,
};
use sztools::outline::element::ElementKind;
use sztools::outline::markdown::{is_code_fence, parse_heading, parse_image, parse_markdown};
use sztools::outline::render::{
    choose_language, detail_column, detect_language, outline, selects, validate, write_element,
    write_element_json, Detail, Format, Language,
};
use sztools::status::Status;

#[test]
fn breaks_lines_on_unicode_newlines_only_under_utf8() {
    let markdown = "# One\u{2028}# Two\n".as_bytes();
    assert_eq!(parse_markdown(markdown, Newlines::Unicode).len(), 2);
    // LF-only splitting swallows the separator into the first heading's text.
    assert_eq!(parse_markdown(markdown, Newlines::Lf).len(), 1);
}

#[test]
fn detail_decides_what_either_renderer_emits() {
    let markdown = b"just a paragraph\n";
    let elements = parse_markdown(markdown, Newlines::Lf);
    assert_eq!(elements.len(), 1);
    assert!(!selects(&elements[0].kind, Detail::Headings));
    assert!(selects(&elements[0].kind, Detail::Blocks));

    let records = |detail| {
        let markdown = b"# Head\n\n```rust\ncode\n```\n";
        let elements = parse_markdown(markdown, Newlines::Lf);
        let mut printed = Vec::new();
        for element in elements.iter().filter(|e| selects(&e.kind, detail)) {
            write_element_json(&mut printed, element, None, detail);
        }
        String::from_utf8(printed).unwrap().lines().count()
    };
    assert_eq!(records(Detail::Headings), 1);
    assert_eq!(records(Detail::Blocks), 2);
}

#[test]
fn records_every_block_regardless_of_detail() {
    // The parser is unconditional; `--detail` filters at the renderer instead.
    let markdown = b"# Head\n\n```rust\ncode\n```\n\n> quoted\n";
    let elements = parse_markdown(markdown, Newlines::Lf);
    let kinds: Vec<&ElementKind> = elements[0].children.iter().map(|c| &c.kind).collect();
    assert!(
        matches!(kinds[0], ElementKind::CodeBlock { .. }),
        "{:?}",
        kinds
    );
    assert!(matches!(kinds[1], ElementKind::Blockquote), "{:?}", kinds);

    // Yet the heading-only rendering still prints one line per heading.
    let mut printed = Vec::new();
    write_element(
        &mut printed,
        &elements[0],
        Detail::Headings,
        Language::Md,
        detail_column(&elements, Detail::Headings),
    );
    assert_eq!(printed, b"# Head\n");
}

#[test]
fn aligns_details_past_the_longest_name() {
    // A heading wider than any fixed column, beside one far narrower, and a child
    // block whose branch glyphs count toward the same column.
    let data = b"# Short\n\nA paragraph.\n\n## A heading long enough to outgrow a fixed forty-column pad\n";
    let elements = parse_markdown(data, Newlines::Lf);
    let column = detail_column(&elements, Detail::Blocks);
    let mut printed = Vec::new();
    for element in &elements {
        write_element(&mut printed, element, Detail::Blocks, Language::Md, column);
    }

    let text = String::from_utf8(printed).unwrap();
    let details: Vec<usize> = text
        .lines()
        .map(|line| line.find(" [").expect("every row carries its detail"))
        .collect();
    assert!(details.len() >= 3, "{}", text);
    assert!(
        details.windows(2).all(|pair| pair[0] == pair[1]),
        "details start in different columns:\n{}",
        text
    );
    // Sized to the longest name, not to a constant.
    assert_eq!(details[0], column, "{}", text);
}

#[test]
fn parses_markdown_heading_levels() {
    assert_eq!(parse_heading(b"# Title"), Some((1, b"Title".as_slice())));
    assert_eq!(
        parse_heading(b"## Level 2"),
        Some((2, b"Level 2".as_slice()))
    );
    assert_eq!(
        parse_heading(b"###### Level 6"),
        Some((6, b"Level 6".as_slice()))
    );
    assert_eq!(parse_heading(b"# Title ##"), Some((1, b"Title".as_slice())));

    // Invalid
    assert_eq!(parse_heading(b"####### Too many"), None);
    assert_eq!(parse_heading(b"#NoSpace"), None);
    assert_eq!(parse_heading(b"Not a heading"), None);
}

#[test]
fn detects_code_fences_and_language() {
    assert!(is_code_fence(b"```").is_some());
    assert!(is_code_fence(b"```rust").is_some());
    assert!(is_code_fence(b"~~~").is_some());
    assert!(is_code_fence(b"  ```").is_some());

    assert!(is_code_fence(b"``").is_none());
    assert!(is_code_fence(b"text").is_none());

    // Check language extraction
    let fence = is_code_fence(b"```rust").unwrap();
    assert_eq!(fence.marker, b'`');
    assert_eq!(fence.language, Some(b"rust".to_vec()));
}

#[test]
fn parses_c_include_directives() {
    assert_eq!(
        parse_include(b"#include <stdio.h>"),
        Some((b"stdio.h".as_slice(), true))
    );
    assert_eq!(
        parse_include(b"#include \"myheader.h\""),
        Some((b"myheader.h".as_slice(), false))
    );

    // Lines shorter than the directive, and other directives, are rejected
    assert_eq!(parse_include(b"#inc"), None);
    assert_eq!(parse_include(b"#include"), None);
    assert_eq!(parse_include(b"#define STDIO 1"), None);
}

#[test]
fn counts_braces_ignoring_strings_and_chars() {
    assert_eq!(count_braces(b"{"), 1);
    assert_eq!(count_braces(b"}"), -1);
    assert_eq!(count_braces(b"{}"), 0);
    assert_eq!(count_braces(b"{ { } }"), 0);
    assert_eq!(count_braces(b"\"{\""), 0); // In string
    assert_eq!(count_braces(b"'{'"), 0); // In char
}

#[test]
fn extracts_last_identifier_from_signature() {
    assert_eq!(
        extract_last_identifier(b"int main"),
        Some(b"main".as_slice())
    );
    assert_eq!(
        extract_last_identifier(b"void *foo"),
        Some(b"foo".as_slice())
    );
    assert_eq!(
        extract_last_identifier(b"static int bar"),
        Some(b"bar".as_slice())
    );
}

#[test]
fn detects_trailing_identifier() {
    assert!(ends_with_identifier(b"if", b"if"));
    assert!(ends_with_identifier(b"   if", b"if"));
    assert!(!ends_with_identifier(b"elif", b"if"));
}

#[test]
fn parses_markdown_headings_into_elements() {
    let md = b"# Title\n\nSome text.\n\n## Section\n\n```rust\ncode\n```\n";
    let elements = parse_markdown(md, Newlines::Lf);

    assert_eq!(elements.len(), 2);
    assert!(matches!(
        elements[0].kind,
        ElementKind::Heading { level: 1 }
    ));
    assert!(matches!(
        elements[1].kind,
        ElementKind::Heading { level: 2 }
    ));
}

#[test]
fn markdown_block_spans_never_overlap() {
    // A quote line ends the table above it, so the two spans stay disjoint
    // instead of the quote nesting inside a still-open table.
    let markdown = b"# Head\n\n| a | b |\n| - | - |\n> quoted\n\ntail\n";
    let elements = parse_markdown(markdown, Newlines::Lf);
    let blocks = &elements[0].children;

    for pair in blocks.windows(2) {
        let (earlier, later) = (&pair[0], &pair[1]);
        assert!(
            earlier.byte_offset + earlier.byte_length <= later.byte_offset,
            "{:?} at {}..{} overlaps {:?} at {}",
            earlier.kind,
            earlier.byte_offset,
            earlier.byte_offset + earlier.byte_length,
            later.kind,
            later.byte_offset
        );
        assert!(
            earlier.line_number + earlier.line_count <= later.line_number,
            "{:?} and {:?} share a line",
            earlier.kind,
            later.kind
        );
    }

    let kinds: Vec<&ElementKind> = blocks.iter().map(|block| &block.kind).collect();
    assert_eq!(
        kinds,
        vec![
            &ElementKind::Table,
            &ElementKind::Blockquote,
            &ElementKind::Paragraph
        ]
    );
}

#[test]
fn markdown_block_at_end_of_input_stops_at_the_last_byte() {
    // Without a trailing newline the final block must not claim a byte past the end.
    let markdown = b"# Head\n\nparagraph";
    let elements = parse_markdown(markdown, Newlines::Lf);
    let paragraph = &elements[0].children[0];

    assert!(matches!(paragraph.kind, ElementKind::Paragraph));
    assert_eq!(
        paragraph.byte_offset + paragraph.byte_length,
        markdown.len()
    );

    // With the trailing newline the block owns it, and still ends at the last byte.
    let terminated = b"# Head\n\nparagraph\n";
    let elements = parse_markdown(terminated, Newlines::Lf);
    let paragraph = &elements[0].children[0];
    assert_eq!(
        paragraph.byte_offset + paragraph.byte_length,
        terminated.len()
    );
}

#[test]
fn parses_c_includes_and_functions() {
    let c = b"#include <stdio.h>\n\nint main(void) {\n    return 0;\n}\n";
    let elements = parse_c(c, Newlines::Lf);

    assert_eq!(elements.len(), 2);
    assert!(matches!(
        elements[0].kind,
        ElementKind::Include { is_system: true }
    ));
    assert!(matches!(elements[1].kind, ElementKind::FunctionDefinition));
}

#[test]
fn records_a_function_that_one_line_closes() {
    let c = b"int f(void) {}\nint g(void) {\n}\nint h(\n    int a) { }\nint k(void);\n";
    let elements = parse_c(c, Newlines::Lf);
    let found: Vec<(&[u8], usize, usize, usize, usize)> = elements
        .iter()
        .map(|element| {
            (
                element.name.as_slice(),
                element.line_number,
                element.byte_offset,
                element.byte_length,
                element.line_count,
            )
        })
        .collect();
    assert_eq!(
        found,
        vec![
            (b"int f(void)".as_slice(), 1, 0, 14, 1),
            (b"int g(void)".as_slice(), 2, 15, 15, 2),
            (b"int h( int a)".as_slice(), 4, 31, 21, 2),
            (b"int k(void)".as_slice(), 6, 53, 12, 1),
        ]
    );
    assert!(matches!(elements[0].kind, ElementKind::FunctionDefinition));
    assert!(matches!(elements[2].kind, ElementKind::FunctionDefinition));
    assert!(matches!(elements[3].kind, ElementKind::FunctionDeclaration));
}

#[test]
fn requires_a_language_only_for_stdin() {
    assert_eq!(validate("README.md", None), Ok(Language::Md));
    assert_eq!(validate("-", Some(Language::Md)), Ok(Language::Md));
    assert!(validate("-", None).is_err());
}

#[test]
fn rejects_an_extension_it_cannot_outline() {
    assert!(validate("notes.txt", None).is_err());
    assert!(validate("notes.md", None).is_ok());
    assert_eq!(validate("notes.txt", Some(Language::C)), Ok(Language::C));
    assert_eq!(
        choose_language("notes.txt", None, None),
        validate("notes.txt", None)
    );
}

#[test]
fn reads_a_language_off_an_extension() {
    assert_eq!(detect_language("a/b.c/notes.md"), Some(Language::Md));
    assert_eq!(detect_language("main.c"), Some(Language::C));
    assert_eq!(detect_language("main.h"), Some(Language::H));
    assert_eq!(detect_language("notes 10:30.md"), Some(Language::Md));
    assert_eq!(detect_language("Makefile"), None);
    assert_eq!(detect_language("dir.md/file"), None);
    assert_eq!(detect_language("dir.md/"), Some(Language::Md));
    assert_eq!(detect_language("dir.md/.//"), Some(Language::Md));
    assert_eq!(detect_language("dir.md/.."), None);
    assert_eq!(detect_language("./"), None);
    assert_eq!(detect_language("/"), None);
    assert_eq!(detect_language(""), None);
    assert_eq!(detect_language(".md"), None);
}

#[test]
fn reads_the_words_around_an_image() {
    assert_eq!(parse_image(b"![a cat](cat.png)"), Some(b"a cat".as_slice()));
    assert_eq!(parse_image(b"[a cat](cat.png)"), None);
}

#[test]
fn joins_a_signature_into_one_line() {
    assert_eq!(normalize_signature(b"int   main\n(void)"), b"int main (void)");
    assert_eq!(
        extract_function_signature(b"static int add(int a, int b) {"),
        Some(b"static int add(int a, int b)".to_vec())
    );
    assert_eq!(extract_function_signature(b"x = y;"), None);
}

#[test]
fn answers_whether_there_was_anything_to_outline() {
    let mut output = Vec::new();
    let status = outline(
        &mut output,
        b"# One\n\ntext\n\n## Two\n",
        Language::Md,
        Newlines::Lf,
        Detail::Headings,
        Format::Text,
        false,
    );
    assert!(status == Status::Success);
    assert_eq!(output, b"# One\n## Two\n");

    let mut output = Vec::new();
    let status = outline(
        &mut output,
        b"just a paragraph\n",
        Language::Md,
        Newlines::Lf,
        Detail::Headings,
        Format::Text,
        false,
    );
    assert!(status == Status::NoResult);
    assert!(output.is_empty());

    // A quiet run answers the same and writes nothing.
    let mut output = Vec::new();
    let status = outline(
        &mut output,
        b"# One\n",
        Language::Md,
        Newlines::Lf,
        Detail::Headings,
        Format::Text,
        true,
    );
    assert!(status == Status::Success);
    assert!(output.is_empty());
}
