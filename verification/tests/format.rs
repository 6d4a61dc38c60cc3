use kupli::ids::parse_link_id;
use kupli::ids::parse_object_id;
use kupli::ids::ObjectId;
use kupli::loader::read_links;
use kupli::loader::LoadError;
use kupli::parse::render_link;
use kupli::parse::Link;
use kupli::parse::Object;
use kupli::parse::ParseError;
use kupli::parse::SpanField;

fn bytes(s: &str) -> Vec<u8> {
    s.as_bytes().to_vec()
}

fn oid(s: &str) -> ObjectId {
    parse_object_id(&bytes(s)).unwrap()
}

const UUID: &str = "550e8400-e29b-41d4-a716-446655440000";
const BLOB_A: &str = "aaaaaaaaaaaaaaaaaaaaaaaaaaaaaaaaaaaaaaaa";
const BLOB_B: &str = "bbbbbbbbbbbbbbbbbbbbbbbbbbbbbbbbbbbbbbbb";

#[test]
fn parse_fragment_and_path_line() {
    let line = format!("{} fragment {} 1 2 3 4 path src/lib.rs", UUID, BLOB_A);
    let link = Link::from_line(&bytes(&line)).unwrap();
    assert_eq!(link.id, parse_link_id(&bytes(UUID)).unwrap());
    match &link.first {
        Object::Fragment {
            blob_id,
            starting_line,
            starting_column,
            ending_line,
            ending_column,
        } => {
            assert_eq!(*blob_id, oid(BLOB_A));
            assert_eq!(*starting_line, 1);
            assert_eq!(*starting_column, 2);
            assert_eq!(*ending_line, 3);
            assert_eq!(*ending_column, 4);
        }
        Object::Path(_) => panic!("first object should be a fragment"),
    }
    match &link.second {
        Object::Path(p) => assert_eq!(p, &bytes("src/lib.rs")),
        Object::Fragment { .. } => panic!("second object should be a path"),
    }
    assert!(!link.reserved_flag);
}

#[test]
fn parse_two_fragments_line() {
    let line = format!(
        "{} fragment {} 10 0 12 80 fragment {} 5 1 5 9",
        UUID, BLOB_A, BLOB_B
    );
    let link = Link::from_line(&bytes(&line)).unwrap();
    match (&link.first, &link.second) {
        (Object::Fragment { blob_id: a, .. }, Object::Fragment { blob_id: b, .. }) => {
            assert_eq!(*a, oid(BLOB_A));
            assert_eq!(*b, oid(BLOB_B));
        }
        _ => panic!("both objects should be fragments"),
    }
}

#[test]
fn trailing_tokens_are_reserved_flag_space() {
    let plain = format!("{} path a.txt path b.txt", UUID);
    let flagged = format!("{} path a.txt path b.txt future-flag", UUID);
    let l1 = Link::from_line(&bytes(&plain)).unwrap();
    let l2 = Link::from_line(&bytes(&flagged)).unwrap();
    assert_eq!(l1, l2);
}

#[test]
fn truncated_fragment_fails_and_never_partially_succeeds() {
    let line = format!("{} fragment {} 1 2", UUID, BLOB_A);
    assert_eq!(
        Link::from_line(&bytes(&line)),
        Err(ParseError::TruncatedFragment)
    );
    let second = format!("{} path a.txt fragment {} 1 2 3", UUID, BLOB_A);
    assert_eq!(
        Link::from_line(&bytes(&second)),
        Err(ParseError::TruncatedFragment)
    );
}

#[test]
fn malformed_identifier_fails() {
    let line = format!("not-a-uuid fragment {} 1 2 3 4 path p", BLOB_A);
    assert_eq!(
        Link::from_line(&bytes(&line)),
        Err(ParseError::InvalidIdentifier)
    );
}

#[test]
fn invalid_blob_id_fails() {
    let line = format!("{} fragment zz 1 2 3 4 path p", UUID);
    assert_eq!(Link::from_line(&bytes(&line)), Err(ParseError::InvalidBlobId));
}

#[test]
fn invalid_span_values_name_the_field() {
    let cases = [
        (format!("{} fragment {} x 2 3 4 path p", UUID, BLOB_A), SpanField::StartLine),
        (format!("{} fragment {} 1 x 3 4 path p", UUID, BLOB_A), SpanField::StartColumn),
        (format!("{} fragment {} 1 2 x 4 path p", UUID, BLOB_A), SpanField::EndLine),
        (format!("{} fragment {} 1 2 3 x path p", UUID, BLOB_A), SpanField::EndColumn),
    ];
    for (line, field) in cases {
        assert_eq!(
            Link::from_line(&bytes(&line)),
            Err(ParseError::InvalidSpanValue(field))
        );
    }
}

#[test]
fn span_overflow_is_invalid() {
    let line = format!(
        "{} fragment {} 99999999999999999999999999 2 3 4 path p",
        UUID, BLOB_A
    );
    assert_eq!(
        Link::from_line(&bytes(&line)),
        Err(ParseError::InvalidSpanValue(SpanField::StartLine))
    );
}

#[test]
fn plus_signed_span_parses_like_std() {
    let line = format!("{} fragment {} +5 2 3 4 path p", UUID, BLOB_A);
    let link = Link::from_line(&bytes(&line)).unwrap();
    match &link.first {
        Object::Fragment { starting_line, .. } => assert_eq!(*starting_line, 5),
        Object::Path(_) => panic!("expected a fragment"),
    }
}

#[test]
fn missing_path_value_fails() {
    let line = format!("{} path a.txt path", UUID);
    assert_eq!(
        Link::from_line(&bytes(&line)),
        Err(ParseError::MissingPathValue)
    );
}

#[test]
fn unknown_object_kind_fails() {
    let line = format!("{} blob {} path p", UUID, BLOB_A);
    assert_eq!(
        Link::from_line(&bytes(&line)),
        Err(ParseError::UnknownObjectKind)
    );
}

#[test]
fn missing_object_fails() {
    assert_eq!(Link::from_line(&bytes(UUID)), Err(ParseError::MissingObject));
}

#[test]
fn uuid_text_forms_name_the_same_link() {
    let lower = format!("{} path a.txt path b.txt", UUID);
    let upper = format!(
        "{} path a.txt path b.txt",
        "550E8400-E29B-41D4-A716-446655440000"
    );
    let braced = format!(
        "{} path a.txt path b.txt",
        "{550e8400-e29b-41d4-a716-446655440000}"
    );
    let simple = format!(
        "{} path a.txt path b.txt",
        "550e8400e29b41d4a716446655440000"
    );
    let reference = Link::from_line(&bytes(&lower)).unwrap();
    assert_eq!(Link::from_line(&bytes(&upper)).unwrap(), reference);
    assert_eq!(Link::from_line(&bytes(&braced)).unwrap(), reference);
    assert_eq!(Link::from_line(&bytes(&simple)).unwrap(), reference);
}

#[test]
fn short_blob_text_is_zero_filled() {
    // One to forty hexadecimal digits name an identifier; the unnamed
    // trailing nibbles are zero, and digit case does not matter.
    let short = oid("ABC");
    let full = oid("abc0000000000000000000000000000000000000");
    assert_eq!(short, full);
    assert_ne!(short, oid(BLOB_A));
}

#[test]
fn render_reparse_is_identity() {
    let line = format!(
        "{} fragment {} 7 0 9 12 path docs/notes.md spare",
        "550E8400-E29B-41D4-A716-446655440000",
        "ABC"
    );
    let parsed = Link::from_line(&bytes(&line)).unwrap();
    let rendered = render_link(&parsed);
    let reparsed = Link::from_line(&rendered).unwrap();
    assert_eq!(parsed, reparsed);
}

#[test]
fn render_is_canonical() {
    let line = format!("{} path a.txt fragment {} 1 2 3 4", UUID, BLOB_A);
    let link = Link::from_line(&bytes(&line)).unwrap();
    assert_eq!(render_link(&link), bytes(&line));
}

#[test]
fn read_links_loads_header_and_links() {
    let content = format!(
        "\n{}\n{} fragment {} 1 2 3 4 path a.txt\n\n{} path a.txt path b.txt\n",
        BLOB_B, UUID, BLOB_A, UUID
    );
    let set = read_links(&bytes(&content)).unwrap();
    assert_eq!(set.previous_commit, oid(BLOB_B));
    assert_eq!(set.links.len(), 2);
}

#[test]
fn read_links_missing_header() {
    assert_eq!(read_links(&bytes("")), Err(LoadError::MissingHeader));
    assert_eq!(read_links(&bytes("\n\n\n")), Err(LoadError::MissingHeader));
}

#[test]
fn read_links_invalid_header_commit() {
    let content = format!("nonsense\n{} path a.txt path b.txt\n", UUID);
    assert_eq!(
        read_links(&bytes(&content)),
        Err(LoadError::InvalidHeaderCommit)
    );
}

#[test]
fn read_links_refuses_whole_set_on_one_bad_line() {
    let content = format!(
        "{}\n{} path a.txt path b.txt\nnot-a-uuid fragment {} 1 2 3 4 path p\n",
        BLOB_B, UUID, BLOB_A
    );
    assert_eq!(
        read_links(&bytes(&content)),
        Err(LoadError::Line(ParseError::InvalidIdentifier))
    );
}
