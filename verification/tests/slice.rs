use include_utils::{process_file, AnchorStyle, IncludeLocation, SliceError};

// The sample file content the location strings below address: 17 lines,
// with a trailing newline.
const MARKDOWN_WITH_HEADER: &str = "# Some needless header\n\nSome needless line\n\n```rust\nfn main() {\n    \n}\n```\n\nSentences:\n\n1. The sun set behind the mountains.\n2. She opened the book and began to read.\n3. The rain fell softly on the roof.\n4. He played soccer with his friends in the park.\n5. The dog barked loudly at the mailman.\n";

// The anchored sample file, with the `conclusion` anchor nested inside
// the `all` anchor.
const ANCHOR_MD: &str = "# Some header\n\n<!-- ANCHOR: all -->\nall text\n\n<!-- ANCHOR: conclusion -->\n\nconclusion\n\n<!-- ANCHOR_END: conclusion -->\n<!-- ANCHOR_END: all -->\n";

// Another layout of the anchored sample file, with the `conclusion`
// anchor standing after the `all` anchor instead of inside it.
const ANCHOR_MD_FLAT: &str = "<!-- ANCHOR: all -->\nall text\nconclusion\n<!-- ANCHOR_END: all -->\n<!-- ANCHOR: conclusion -->\nconclusion\n<!-- ANCHOR_END: conclusion -->\n";

fn run(location: &str, content: &str, style: AnchorStyle) -> Result<String, SliceError> {
    let parsed = IncludeLocation::parse(location).unwrap();
    process_file(content, &parsed.range, style)
}

#[test]
fn test_include_str_line() {
    assert_eq!(
        run(
            "tests/data/markdown_with_header.md:3",
            MARKDOWN_WITH_HEADER,
            AnchorStyle::Plain,
        )
        .unwrap(),
        "Some needless line"
    );
}

#[test]
fn test_include_str_part() {
    assert_eq!(
        run(
            "tests/data/markdown_with_header.md:5:9",
            MARKDOWN_WITH_HEADER,
            AnchorStyle::Plain,
        )
        .unwrap(),
        "```rust\nfn main() {\n    \n}\n```"
    );
}

#[test]
fn test_include_str_begin() {
    assert_eq!(
        run(
            "tests/data/markdown_with_header.md::3",
            MARKDOWN_WITH_HEADER,
            AnchorStyle::Plain,
        )
        .unwrap(),
        "# Some needless header\n\nSome needless line"
    );
}

#[test]
fn test_include_str_end() {
    assert_eq!(
        run(
            "tests/data/markdown_with_header.md:16:",
            MARKDOWN_WITH_HEADER,
            AnchorStyle::Plain,
        )
        .unwrap(),
        "4. He played soccer with his friends in the park.\n5. The dog barked loudly at the mailman."
    );
}

#[test]
fn test_ainclude_str_end() {
    assert_eq!(
        run(
            "tests/data/markdown_with_header.md:16:",
            MARKDOWN_WITH_HEADER,
            AnchorStyle::Plain,
        )
        .unwrap(),
        "4. He played soccer with his friends in the park.\n5. The dog barked loudly at the mailman."
    );
}

#[test]
fn test_include_md_anchor_all() {
    assert_eq!(
        run("tests/data/anchor.md:all", ANCHOR_MD, AnchorStyle::Markdown).unwrap(),
        "all text\n\n<!-- ANCHOR: conclusion -->\n\nconclusion\n\n<!-- ANCHOR_END: conclusion -->"
    );
}

#[test]
fn test_include_md_anchor_conclusion() {
    assert_eq!(
        run(
            "tests/data/anchor.md:conclusion",
            ANCHOR_MD,
            AnchorStyle::Markdown,
        )
        .unwrap(),
        "conclusion"
    );
}

#[test]
fn main_test_include_str_part() {
    assert_eq!(
        run(
            "tests/data/markdown_with_header.md:5:9",
            MARKDOWN_WITH_HEADER,
            AnchorStyle::Plain,
        )
        .unwrap(),
        "```rust\nfn main() {\n    \n}\n```"
    );
}

#[test]
fn main_test_include_str_begin() {
    assert_eq!(
        run(
            "tests/data/markdown_with_header.md::3",
            MARKDOWN_WITH_HEADER,
            AnchorStyle::Plain,
        )
        .unwrap(),
        "# Some needless header\n\nSome needless line"
    );
}

#[test]
fn main_test_include_md_anchor_all() {
    assert_eq!(
        run(
            "tests/data/anchor.md:all",
            ANCHOR_MD_FLAT,
            AnchorStyle::Markdown,
        )
        .unwrap(),
        "all text\nconclusion"
    );
}

#[test]
fn main_test_include_md_anchor_conclusion() {
    assert_eq!(
        run(
            "tests/data/anchor.md:conclusion",
            ANCHOR_MD_FLAT,
            AnchorStyle::Markdown,
        )
        .unwrap(),
        "conclusion"
    );
}
