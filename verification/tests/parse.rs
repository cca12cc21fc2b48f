use include_utils::{IncludeLocation, IncludeRange, ParseError, RangeBound};

fn loc(path: &str, range: IncludeRange) -> IncludeLocation {
    IncludeLocation {
        path: path.to_string(),
        range,
    }
}

#[test]
fn test_parse_include_location() {
    let test_cases = [
        ("file.rs", loc("file.rs", IncludeRange::Full)),
        (
            "file.rs:2",
            loc(
                "file.rs",
                IncludeRange::Range {
                    from: Some(2),
                    to: Some(3),
                },
            ),
        ),
        (
            "file.rs::10",
            loc(
                "file.rs",
                IncludeRange::Range {
                    from: None,
                    to: Some(10),
                },
            ),
        ),
        (
            "file.rs:2:",
            loc(
                "file.rs",
                IncludeRange::Range {
                    from: Some(2),
                    to: None,
                },
            ),
        ),
        (
            "file.rs:2:10",
            loc(
                "file.rs",
                IncludeRange::Range {
                    from: Some(2),
                    to: Some(10),
                },
            ),
        ),
        (
            "file.rs:component",
            loc(
                "file.rs",
                IncludeRange::Anchor {
                    name: "component".to_string(),
                },
            ),
        ),
    ];

    for (path, expected) in test_cases {
        let actual = IncludeLocation::parse(path).unwrap();
        assert_eq!(actual, expected);
    }
}

#[test]
fn parse_bare_path_is_full() {
    let actual = IncludeLocation::parse("a.md").unwrap();
    assert_eq!(actual, loc("a.md", IncludeRange::Full));
}

#[test]
fn parse_single_line_selector() {
    let actual = IncludeLocation::parse("a.md:2").unwrap();
    assert_eq!(
        actual,
        loc(
            "a.md",
            IncludeRange::Range {
                from: Some(2),
                to: Some(3),
            },
        )
    );
}

#[test]
fn parse_open_start_selector() {
    let actual = IncludeLocation::parse("a.md::10").unwrap();
    assert_eq!(
        actual,
        loc(
            "a.md",
            IncludeRange::Range {
                from: None,
                to: Some(10),
            },
        )
    );
}

#[test]
fn parse_open_end_selector() {
    let actual = IncludeLocation::parse("a.md:2:").unwrap();
    assert_eq!(
        actual,
        loc(
            "a.md",
            IncludeRange::Range {
                from: Some(2),
                to: None,
            },
        )
    );
}

#[test]
fn parse_closed_range_selector() {
    let actual = IncludeLocation::parse("a.md:2:10").unwrap();
    assert_eq!(
        actual,
        loc(
            "a.md",
            IncludeRange::Range {
                from: Some(2),
                to: Some(10),
            },
        )
    );
}

#[test]
fn parse_non_numeric_selector_is_anchor() {
    let actual = IncludeLocation::parse("a.md:component").unwrap();
    assert_eq!(
        actual,
        loc(
            "a.md",
            IncludeRange::Anchor {
                name: "component".to_string(),
            },
        )
    );
}

#[test]
fn parse_empty_selector_is_empty_anchor_name() {
    let actual = IncludeLocation::parse("a.md:").unwrap();
    assert_eq!(
        actual,
        loc(
            "a.md",
            IncludeRange::Anchor {
                name: "".to_string(),
            },
        )
    );
}

#[test]
fn parse_four_parts_is_invalid_layout() {
    let err = IncludeLocation::parse("a.md:1:2:3").unwrap_err();
    assert_eq!(err, ParseError::InvalidLayout);
}

#[test]
fn parse_bad_to_in_open_start_names_to() {
    let err = IncludeLocation::parse("a.md::x").unwrap_err();
    assert_eq!(
        err,
        ParseError::InvalidNumber {
            component: RangeBound::To,
        }
    );
}

#[test]
fn parse_bad_from_in_open_end_names_from() {
    let err = IncludeLocation::parse("a.md:x:").unwrap_err();
    assert_eq!(
        err,
        ParseError::InvalidNumber {
            component: RangeBound::From,
        }
    );
}

#[test]
fn parse_bad_from_in_closed_range_names_from() {
    let err = IncludeLocation::parse("a.md:x:2").unwrap_err();
    assert_eq!(
        err,
        ParseError::InvalidNumber {
            component: RangeBound::From,
        }
    );
}

#[test]
fn parse_bad_to_in_closed_range_names_to() {
    let err = IncludeLocation::parse("a.md:2:x").unwrap_err();
    assert_eq!(
        err,
        ParseError::InvalidNumber {
            component: RangeBound::To,
        }
    );
}

#[test]
fn parse_double_empty_selector_names_to() {
    let err = IncludeLocation::parse("a.md::").unwrap_err();
    assert_eq!(
        err,
        ParseError::InvalidNumber {
            component: RangeBound::To,
        }
    );
}

#[test]
fn parse_overlong_number_in_closed_range_is_invalid() {
    let err = IncludeLocation::parse("a.md:2:99999999999999999999999").unwrap_err();
    assert_eq!(
        err,
        ParseError::InvalidNumber {
            component: RangeBound::To,
        }
    );
}

#[test]
fn parse_overlong_trailing_number_falls_back_to_anchor() {
    let actual = IncludeLocation::parse("a.md:99999999999999999999999").unwrap();
    assert_eq!(
        actual,
        loc(
            "a.md",
            IncludeRange::Anchor {
                name: "99999999999999999999999".to_string(),
            },
        )
    );
}

#[test]
fn parse_empty_string_is_full_with_empty_path() {
    let actual = IncludeLocation::parse("").unwrap();
    assert_eq!(actual, loc("", IncludeRange::Full));
}
