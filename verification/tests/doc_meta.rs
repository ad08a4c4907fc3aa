use pxdocs::query::filter_docs;
use pxdocs::doc::{doc_from_parts, doc_type, find_field, guild, id_from_basename, parse_doc, title_from_basename, Doc};

fn s(v: &str) -> String {
    v.to_string()
}

#[test]
fn title_drops_kind_prefix_and_number() {
    assert_eq!(title_from_basename("adr-011-use-react-query"), "use react query");
    assert_eq!(title_from_basename("rfc-2024-01-new-api"), "new api");
    assert_eq!(title_from_basename("adr-rfc-7-x"), "x");
    assert_eq!(title_from_basename("onboarding-guide"), "onboarding guide");
}

#[test]
fn title_falls_back_to_base_when_nothing_is_left() {
    assert_eq!(title_from_basename("rfc-002"), "rfc-002");
    assert_eq!(title_from_basename("123"), "123");
    assert_eq!(title_from_basename(""), "");
}

#[test]
fn id_is_the_leading_number() {
    assert_eq!(id_from_basename("adr-011-use-react-query"), Some(s("011")));
    assert_eq!(id_from_basename("rfc-7"), Some(s("7")));
    assert_eq!(id_from_basename("42-notes"), Some(s("42")));
    assert_eq!(id_from_basename("readme"), None);
    assert_eq!(id_from_basename("adr--1"), None);
}

#[test]
fn doc_type_from_directories() {
    assert_eq!(doc_type("docs/front-guild/decisions/x.md"), "decision");
    assert_eq!(doc_type("docs/ADRs/adr-001.md"), "adr");
    assert_eq!(doc_type("docs/RFCs/rfc-001.md"), "rfc");
    assert_eq!(doc_type("docs/rfcs/rfc-001.md"), "rfc");
    assert_eq!(doc_type("docs/guides/setup.md"), "guide");
    assert_eq!(doc_type("docs/notes.md"), "doc");
    assert_eq!(doc_type("decisions/x.md"), "doc");
    assert_eq!(doc_type("docs/decisions/guides/x.md"), "decision");
}

#[test]
fn guild_from_directory() {
    assert_eq!(guild("docs/front-guild/decisions/x.md"), Some(s("front")));
    assert_eq!(guild("docs/back-guild/x.md"), Some(s("back")));
    assert_eq!(guild("docs/qa-guild/x.md"), Some(s("qa")));
    assert_eq!(guild("docs/data-guild/x.md"), None);
    assert_eq!(guild("other/docs/front-guild/x.md"), None);
    assert_eq!(guild("docs/front-guild"), None);
}

#[test]
fn field_is_first_matching_key() {
    let text = "# Title\nAuthor: Ann\n  status :  Accepted  \nStatus: Rejected\n";
    assert_eq!(find_field(text, "Status"), Some(s("Accepted")));
    assert_eq!(find_field(text, "AUTHOR"), Some(s("Ann")));
    assert_eq!(find_field(text, "Date"), None);
    assert_eq!(find_field("Date: 2024:01", "date"), Some(s("2024:01")));
    assert_eq!(find_field("Status:\r\nx", "status"), Some(s("")));
}

fn check(d: &Doc, path: &str, title: &str, status: &str, ty: &str, g: Option<&str>, id: Option<&str>, summary: Option<&str>) {
    assert_eq!(d.path, path);
    assert_eq!(d.title, title);
    assert_eq!(d.status, status);
    assert_eq!(d.doc_type, ty);
    assert_eq!(d.guild.as_deref(), g);
    assert_eq!(d.id.as_deref(), id);
    assert_eq!(d.summary.as_deref(), summary);
}

#[test]
fn local_doc_is_read_from_its_markdown() {
    let content = "# Use React Query \n\nStatus: Accepted\n\n## Context\nWe use React Query for data fetching.\n";
    let d = parse_doc(
        "/root/px/docs/front-guild/decisions/adr-011-use-react-query.md",
        Some(content),
        Some("/root/px"),
    );
    check(
        &d,
        "docs/front-guild/decisions/adr-011-use-react-query.md",
        "Use React Query",
        "Accepted",
        "decision",
        Some("front"),
        Some("011"),
        Some("We use React Query for data fetching."),
    );
}

#[test]
fn remote_doc_is_read_from_its_path() {
    let d = parse_doc("docs/back-guild/RFCs/rfc-004-event-bus.md", None, None);
    check(
        &d,
        "docs/back-guild/RFCs/rfc-004-event-bus.md",
        "event bus",
        "unknown",
        "rfc",
        Some("back"),
        Some("004"),
        None,
    );
}

#[test]
fn doc_outside_root_keeps_its_path() {
    let d = parse_doc("/elsewhere/x.md", Some("plain text"), Some("/root/px"));
    assert_eq!(d.path, "/elsewhere/x.md");
    assert_eq!(d.title, "x");
    assert_eq!(d.summary.as_deref(), Some("plain text"));
}

#[test]
fn backslashes_read_as_slashes() {
    let d = parse_doc("docs\\guides\\setup.md", None, None);
    assert_eq!(d.path, "docs/guides/setup.md");
    assert_eq!(d.doc_type, "guide");
    assert_eq!(d.title, "setup");
}

#[test]
fn heading_and_summary_rules() {
    let d = doc_from_parts("docs/a.md", "a", Some("#NoSpace\n  # Indented\n\n   \nkey: v\nFirst prose line  \nSecond\n"));
    assert_eq!(d.title, "a");
    assert_eq!(d.summary.as_deref(), Some("First prose line"));
    assert_eq!(d.status, "unknown");
    let e = doc_from_parts("docs/b.md", "b", Some("text\r\n# Heading\r\n"));
    assert_eq!(e.title, "Heading");
    assert_eq!(e.summary.as_deref(), Some("text"));
    let f = doc_from_parts("docs/c.md", "c", Some(""));
    assert_eq!(f.summary, None);
    assert_eq!(f.title, "c");
}

#[test]
fn lowercase_wrapper_handles_unicode_status() {
    let d = doc_from_parts("docs/a.md", "a", Some("Status: ÜBERHOLT"));
    let kept = filter_docs(&[d], None, None, Some("überholt"));
    assert_eq!(kept.len(), 1);
}
