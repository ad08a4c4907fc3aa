use pxdocs::doc::{doc_from_parts, Doc};
use pxdocs::query::{filter_docs, find_docs, search_docs};

fn doc(path: &str, base: &str, content: Option<&str>) -> Doc {
    doc_from_parts(path, base, content)
}

fn paths(ds: &[Doc]) -> Vec<String> {
    ds.iter().map(|d| d.path.clone()).collect()
}

fn sample() -> Vec<Doc> {
    vec![
        doc(
            "docs/front-guild/decisions/adr-011-use-react-query.md",
            "adr-011-use-react-query",
            Some("# Use React Query\nStatus: Accepted\nServer state lives in React Query."),
        ),
        doc(
            "docs/front-guild/decisions/adr-012-styling.md",
            "adr-012-styling",
            Some("# Styling\nStatus: Superseded by 014\nWe use CSS modules."),
        ),
        doc(
            "docs/back-guild/decisions/adr-011-event-bus.md",
            "adr-011-event-bus",
            Some("# Event bus\nStatus: Proposed\nEvery query goes through the bus."),
        ),
        doc("docs/guides/react-setup.md", "react-setup", Some("# React setup\nHow to start.")),
    ]
}

#[test]
fn filter_by_type_guild_and_status() {
    let docs = sample();
    let decisions = filter_docs(&docs, Some("decision"), None, None);
    assert_eq!(decisions.len(), 3);
    let front = filter_docs(&docs, Some("decision"), Some("front"), None);
    assert_eq!(
        paths(&front),
        vec![
            "docs/front-guild/decisions/adr-011-use-react-query.md",
            "docs/front-guild/decisions/adr-012-styling.md"
        ]
    );
    let accepted = filter_docs(&docs, None, None, Some("ACCEPT"));
    assert_eq!(paths(&accepted), vec!["docs/front-guild/decisions/adr-011-use-react-query.md"]);
    let superseded = filter_docs(&docs, None, Some("front"), Some("superseded"));
    assert_eq!(paths(&superseded), vec!["docs/front-guild/decisions/adr-012-styling.md"]);
    let none = filter_docs(&docs, Some("rfc"), None, None);
    assert!(none.is_empty());
    let all = filter_docs(&docs, None, None, None);
    assert_eq!(all.len(), 4);
}

#[test]
fn search_orders_by_score_then_path() {
    let docs = sample();
    let found = search_docs(&docs, "react query");
    assert_eq!(
        paths(&found),
        vec![
            "docs/front-guild/decisions/adr-011-use-react-query.md",
            "docs/back-guild/decisions/adr-011-event-bus.md",
            "docs/guides/react-setup.md",
        ]
    );
}

#[test]
fn search_counts_repeated_terms_and_ignores_case() {
    let docs = sample();
    let found = search_docs(&docs, "  BUS   bus ");
    assert_eq!(paths(&found), vec!["docs/back-guild/decisions/adr-011-event-bus.md"]);
    assert!(search_docs(&docs, "nothing-like-this").is_empty());
    assert!(search_docs(&docs, "   ").is_empty());
}

#[test]
fn search_ties_keep_path_order() {
    let docs = vec![
        doc("docs/b.md", "b", Some("common")),
        doc("docs/a.md", "a", Some("common")),
        doc("docs/a.md", "a", Some("common again")),
    ];
    let found = search_docs(&docs, "common");
    assert_eq!(paths(&found), vec!["docs/a.md", "docs/a.md", "docs/b.md"]);
    assert_eq!(found[0].summary.as_deref(), Some("common"));
    assert_eq!(found[1].summary.as_deref(), Some("common again"));
}

#[test]
fn find_by_id_within_guild() {
    let docs = sample();
    let front = find_docs(&docs, "011", None, Some("front"), None);
    assert_eq!(paths(&front), vec!["docs/front-guild/decisions/adr-011-use-react-query.md"]);
    let both = find_docs(&docs, "011", None, None, None);
    assert_eq!(both.len(), 2);
}

#[test]
fn find_lists_exact_path_then_id_then_substring_once_each() {
    let docs = vec![
        doc("docs/x-7.md", "x-7", None),
        doc("docs/7.md", "7", None),
        doc("7", "7", None),
    ];
    let m = find_docs(&docs, "7", None, None, None);
    assert_eq!(paths(&m), vec!["7", "docs/7.md", "docs/x-7.md"]);
    let none = find_docs(&docs, "8", None, None, None);
    assert!(none.is_empty());
    let typed = find_docs(&docs, "7", Some("guide"), None, None);
    assert!(typed.is_empty());
}

#[test]
fn search_ignores_word_order_and_ascii_case() {
    let docs = sample();
    let a = paths(&search_docs(&docs, "react query"));
    let b = paths(&search_docs(&docs, "QUERY  React"));
    assert_eq!(a, b);
}
