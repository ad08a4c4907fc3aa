use pxdocs::command::{command_kind, format_doc, read_docs_path_answer, run_query, split_command, Command, QueryError, QueryOutcome};
use pxdocs::config::{mark_docs_fetched, save_docs_path, Config};
use pxdocs::doc::{doc_from_parts, Doc};
use pxdocs::options::parse_options;
use pxdocs::source::{
    assert_gh_available, command_output, decoded_content, load_local_docs, load_remote_docs,
    load_source, maybe_fetch_after_command, now_ms, repo_status, should_prompt, sort_paths,
    strip_newlines, warn_if_known_behind, LocalFile, SourceChoice,
};

fn args(v: &[&str]) -> Vec<String> {
    v.iter().map(|a| a.to_string()).collect()
}

fn docs() -> Vec<Doc> {
    vec![
        doc_from_parts(
            "docs/front-guild/decisions/adr-011-use-react-query.md",
            "adr-011-use-react-query",
            Some("# Use React Query\nStatus: Accepted\nServer state."),
        ),
        doc_from_parts(
            "docs/back-guild/decisions/adr-011-event-bus.md",
            "adr-011-event-bus",
            Some("# Event bus\nStatus: Proposed"),
        ),
        doc_from_parts("docs/guides/react-setup.md", "react-setup", None),
    ]
}

#[test]
fn command_names() {
    assert_eq!(command_kind("help"), Command::Help);
    assert_eq!(command_kind("--help"), Command::Help);
    assert_eq!(command_kind("-h"), Command::Help);
    assert_eq!(command_kind("setup"), Command::Setup);
    assert_eq!(command_kind("config"), Command::Config);
    assert_eq!(command_kind("doctor"), Command::Doctor);
    assert_eq!(command_kind("decisions"), Command::Decisions);
    assert_eq!(command_kind("search"), Command::Search);
    assert_eq!(command_kind("show"), Command::Show);
    assert_eq!(command_kind("list"), Command::Unknown);
}

#[test]
fn split_command_defaults_to_help() {
    let (c, rest) = split_command(vec![]);
    assert_eq!(c, "help");
    assert!(rest.is_empty());
    let (c, rest) = split_command(args(&["search", "react", "--remote"]));
    assert_eq!(c, "search");
    assert_eq!(rest, args(&["react", "--remote"]));
}

#[test]
fn decisions_lists_decisions_up_to_limit() {
    let o = parse_options(args(&["--limit", "1"])).unwrap();
    match run_query("decisions", &o, &docs()) {
        Ok(QueryOutcome::Listed(ds)) => {
            assert_eq!(ds.len(), 1);
            assert_eq!(ds[0].path, "docs/front-guild/decisions/adr-011-use-react-query.md");
        }
        other => panic!("unexpected {other:?}"),
    }
    let o = parse_options(args(&["--guild", "back"])).unwrap();
    match run_query("decisions", &o, &docs()) {
        Ok(QueryOutcome::Listed(ds)) => {
            assert_eq!(ds.len(), 1);
            assert_eq!(ds[0].path, "docs/back-guild/decisions/adr-011-event-bus.md");
        }
        other => panic!("unexpected {other:?}"),
    }
}

#[test]
fn search_needs_a_query() {
    let o = parse_options(args(&[])).unwrap();
    let e = run_query("search", &o, &docs()).unwrap_err();
    assert!(matches!(e, QueryError::MissingQuery));
    assert_eq!(e.message(), "search requires a query");
    let o = parse_options(args(&["react", "query"])).unwrap();
    match run_query("search", &o, &docs()) {
        Ok(QueryOutcome::Listed(ds)) => {
            assert_eq!(ds.len(), 2);
            assert_eq!(ds[0].path, "docs/front-guild/decisions/adr-011-use-react-query.md");
            assert_eq!(ds[1].path, "docs/guides/react-setup.md");
        }
        other => panic!("unexpected {other:?}"),
    }
}

#[test]
fn show_by_id_with_guild() {
    let o = parse_options(args(&["011", "--guild", "front"])).unwrap();
    match run_query("show", &o, &docs()) {
        Ok(QueryOutcome::Chosen(d)) => {
            assert_eq!(d.path, "docs/front-guild/decisions/adr-011-use-react-query.md")
        }
        other => panic!("unexpected {other:?}"),
    }
}

#[test]
fn show_errors() {
    let o = parse_options(args(&[])).unwrap();
    let e = run_query("show", &o, &docs()).unwrap_err();
    assert_eq!(e.message(), "show requires a path or id");
    let o = parse_options(args(&["999"])).unwrap();
    let e = run_query("show", &o, &docs()).unwrap_err();
    assert_eq!(e.message(), "doc not found: 999");
    let o = parse_options(args(&["011"])).unwrap();
    match run_query("show", &o, &docs()).unwrap_err() {
        QueryError::Ambiguous(sel, listed) => {
            assert_eq!(sel, "011");
            assert_eq!(listed.len(), 2);
        }
        other => panic!("unexpected {other:?}"),
    }
    let e = run_query("show", &o, &docs()).unwrap_err();
    assert_eq!(e.message(), "ambiguous selector: 011. narrow with --guild or use a path");
    let e = run_query("list", &o, &docs()).unwrap_err();
    assert_eq!(e.message(), "unknown command: list");
}

#[test]
fn doc_listing_format() {
    let ds = docs();
    assert_eq!(
        format_doc(&ds[0]),
        "docs/front-guild/decisions/adr-011-use-react-query.md\n  Use React Query (decision \u{b7} front \u{b7} Accepted)"
    );
    assert_eq!(format_doc(&ds[2]), "docs/guides/react-setup.md\n  react setup (guide \u{b7} unknown)");
}

#[test]
fn typed_docs_path() {
    assert_eq!(read_docs_path_answer("  ~/px-docs \n", false, "/home/u").as_deref(), Some("/home/u/px-docs"));
    assert_eq!(read_docs_path_answer("  \n", true, "/home/u"), None);
    assert_eq!(read_docs_path_answer("", false, "/home/u").as_deref(), Some(""));
    assert_eq!(read_docs_path_answer("/srv/px", true, "/home/u").as_deref(), Some("/srv/px"));
}

#[test]
fn source_choice() {
    assert!(should_prompt(false, &None));
    assert!(!should_prompt(true, &None));
    assert!(!should_prompt(false, &Some("/p".to_string())));
    assert!(matches!(load_source(false, Some("/p".to_string())), SourceChoice::Local(p) if p == "/p"));
    assert!(matches!(load_source(true, Some("/p".to_string())), SourceChoice::Remote));
    assert!(matches!(load_source(false, None), SourceChoice::Remote));
}

#[test]
fn command_output_is_trimmed() {
    assert_eq!(command_output(true, b"  out\n", b"err"), Ok("out".to_string()));
    assert_eq!(command_output(false, b"out", b" bad thing \n"), Err("bad thing".to_string()));
    assert_eq!(command_output(true, b"a\xffb", b""), Ok("a\u{fffd}b".to_string()));
    assert_eq!(assert_gh_available(Ok("gh version 2".to_string())), Ok(()));
    assert_eq!(assert_gh_available(Err("missing".to_string())), Err("missing".to_string()));
}

#[test]
fn remote_content_helpers() {
    assert_eq!(strip_newlines("aGVs\nbG8=\n"), "aGVsbG8=");
    assert_eq!(decoded_content(true, b"# T\n"), Ok("# T\n".to_string()));
    assert_eq!(decoded_content(false, b""), Err("failed to decode GitHub content".to_string()));
}

#[test]
fn remote_docs_sorted_by_path() {
    let ds = load_remote_docs("docs/guides/b.md\ndocs/ADRs/adr-2-x.md\r\ndocs/a.md");
    let paths: Vec<&str> = ds.iter().map(|d| d.path.as_str()).collect();
    assert_eq!(paths, vec!["docs/ADRs/adr-2-x.md", "docs/a.md", "docs/guides/b.md"]);
    assert_eq!(ds[0].id.as_deref(), Some("2"));
    assert!(load_remote_docs("").is_empty());
}

#[test]
fn local_files_in_path_order() {
    let files = vec![
        "/r/docs/a-c.md".to_string(),
        "/r/docs/a/b.md".to_string(),
        "/r/docs/B.md".to_string(),
    ];
    let sorted = sort_paths(&files);
    let mut std_sorted: Vec<std::path::PathBuf> = files.iter().map(std::path::PathBuf::from).collect();
    std_sorted.sort();
    let std_sorted: Vec<String> = std_sorted.iter().map(|p| p.to_string_lossy().into_owned()).collect();
    assert_eq!(sorted, std_sorted);
    assert_eq!(sorted, vec!["/r/docs/B.md", "/r/docs/a/b.md", "/r/docs/a-c.md"]);
}

#[test]
fn local_docs_from_files() {
    let files = vec![LocalFile {
        path: "/r/docs/qa-guild/guides/testing.md".to_string(),
        content: "# Testing\nRun the suite.".to_string(),
    }];
    let ds = load_local_docs("/r", &files);
    assert_eq!(ds.len(), 1);
    assert_eq!(ds[0].path, "docs/qa-guild/guides/testing.md");
    assert_eq!(ds[0].guild.as_deref(), Some("qa"));
    assert_eq!(ds[0].doc_type, "guide");
    assert_eq!(ds[0].title, "Testing");
}

#[test]
fn repo_status_and_warning() {
    let s = repo_status("origin/main".to_string(), "12\t1");
    assert_eq!((s.behind, s.ahead), (12, 1));
    assert_eq!(
        warn_if_known_behind(&s).as_deref(),
        Some("warning: px-docs is 12 commit(s) behind origin/main")
    );
    let s = repo_status("origin/main".to_string(), "x 2");
    assert_eq!((s.behind, s.ahead), (0, 2));
    assert_eq!(warn_if_known_behind(&s), None);
    let s = repo_status("u".to_string(), "");
    assert_eq!((s.behind, s.ahead), (0, 0));
    let s = repo_status("u".to_string(), "4294967296 7");
    assert_eq!((s.behind, s.ahead), (0, 7));
}

#[test]
fn fetch_after_command_decision() {
    let mut c = Config::default();
    let o = parse_options(args(&[])).unwrap();
    assert_eq!(maybe_fetch_after_command(false, &o, &c, 5), None);
    save_docs_path(&mut c, "/p");
    assert_eq!(maybe_fetch_after_command(false, &o, &c, 5).as_deref(), Some("/p"));
    assert_eq!(maybe_fetch_after_command(true, &o, &c, 5), None);
    mark_docs_fetched(&mut c, "/p", 5);
    assert_eq!(maybe_fetch_after_command(false, &o, &c, 6), None);
    let refresh = parse_options(args(&["--refresh"])).unwrap();
    assert_eq!(maybe_fetch_after_command(false, &refresh, &c, 6).as_deref(), Some("/p"));
    let no_fetch = parse_options(args(&["--refresh", "--no-fetch"])).unwrap();
    assert_eq!(maybe_fetch_after_command(false, &no_fetch, &c, 6), None);
    assert_eq!(maybe_fetch_after_command(false, &o, &c, 700_000).as_deref(), Some("/p"));
}

#[test]
fn clock_reads_after_2020() {
    assert!(now_ms() > 1_577_836_800_000);
}

#[test]
fn path_order_matches_std_on_component_kinds() {
    let files: Vec<String> = [
        "/a", "./a", "../a", "a", "a/../b", ".", "..", "a/./b", "a//b", "/", "", ".a", "a/.b",
        "./", "a/", "/./a", "//a", "a-b", "a/b", "B", "a/..", ".../x", "a/.../b", "a/b/c.md",
    ]
    .iter()
    .map(|s| s.to_string())
    .collect();
    let sorted = sort_paths(&files);
    let mut std_sorted: Vec<(std::path::PathBuf, usize)> =
        files.iter().enumerate().map(|(i, f)| (std::path::PathBuf::from(f), i)).collect();
    std_sorted.sort_by(|x, y| x.0.cmp(&y.0).then(x.1.cmp(&y.1)));
    let std_sorted: Vec<String> = std_sorted.iter().map(|(_, i)| files[*i].clone()).collect();
    assert_eq!(sorted, std_sorted);
}

#[test]
fn search_command_applies_guild_and_status() {
    let o = parse_options(args(&["react", "--guild", "front"])).unwrap();
    match run_query("search", &o, &docs()) {
        Ok(QueryOutcome::Listed(ds)) => {
            assert_eq!(ds.len(), 1);
            assert_eq!(ds[0].path, "docs/front-guild/decisions/adr-011-use-react-query.md");
        }
        other => panic!("unexpected {other:?}"),
    }
    let o = parse_options(args(&["bus", "--status", "accepted"])).unwrap();
    match run_query("search", &o, &docs()) {
        Ok(QueryOutcome::Listed(ds)) => assert!(ds.is_empty()),
        other => panic!("unexpected {other:?}"),
    }
    let o = parse_options(args(&["bus", "--status", "PROPOSED"])).unwrap();
    match run_query("search", &o, &docs()) {
        Ok(QueryOutcome::Listed(ds)) => assert_eq!(ds.len(), 1),
        other => panic!("unexpected {other:?}"),
    }
}
