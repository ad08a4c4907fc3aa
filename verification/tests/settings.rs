use pxdocs::config::{docs_path, mark_docs_fetched, remote, save_docs_path, should_fetch, Config, FetchMark};
use pxdocs::options::{parse_decimal_exec, parse_options};
use pxdocs::paths::{config_file, expand_path, home_dir, is_markdown, join};

fn args(v: &[&str]) -> Vec<String> {
    v.iter().map(|a| a.to_string()).collect()
}

#[test]
fn options_defaults() {
    let o = parse_options(args(&[])).unwrap();
    assert_eq!(o.limit, 20);
    assert!(!o.remote && !o.refresh && !o.no_fetch);
    assert!(o.positionals.is_empty());
    assert_eq!(o.guild, None);
    assert_eq!(o.status, None);
    assert_eq!(o.doc_type, None);
}

#[test]
fn options_flags_values_and_positionals() {
    let o = parse_options(args(&[
        "react", "--guild", "front", "--remote", "query", "--status", "accepted", "--type", "adr",
        "--limit", "5", "--refresh", "--no-fetch",
    ]))
    .unwrap();
    assert_eq!(o.positionals, vec!["react".to_string(), "query".to_string()]);
    assert_eq!(o.guild.as_deref(), Some("front"));
    assert_eq!(o.status.as_deref(), Some("accepted"));
    assert_eq!(o.doc_type.as_deref(), Some("adr"));
    assert_eq!(o.limit, 5);
    assert!(o.remote && o.refresh && o.no_fetch);
}

#[test]
fn options_value_taken_even_if_it_looks_like_a_flag() {
    let o = parse_options(args(&["--guild", "--remote"])).unwrap();
    assert_eq!(o.guild.as_deref(), Some("--remote"));
    assert!(!o.remote);
    let last = parse_options(args(&["x", "--guild"])).unwrap();
    assert_eq!(last.guild, None);
    assert_eq!(last.positionals, vec!["x".to_string()]);
}

#[test]
fn options_bad_limit_is_default() {
    assert_eq!(parse_options(args(&["--limit", "abc"])).unwrap().limit, 20);
    assert_eq!(parse_options(args(&["--limit", "-3"])).unwrap().limit, 20);
    assert_eq!(parse_options(args(&["--limit", "+7"])).unwrap().limit, 7);
    assert_eq!(parse_options(args(&["--limit", "0"])).unwrap().limit, 0);
    assert_eq!(parse_options(args(&["--limit"])).unwrap().limit, 20);
    assert_eq!(
        parse_options(args(&["--limit", "99999999999999999999999"])).unwrap().limit,
        20
    );
}

#[test]
fn decimal_parse_matches_std() {
    for text in ["0", "42", "+1", "+", "", "-1", "4294967295", "4294967296", "12a", " 1", "007"] {
        let chars: Vec<char> = text.chars().collect();
        let ours = parse_decimal_exec(&chars, u32::MAX as u64);
        let std = text.parse::<u32>().ok().map(|v| v as u64);
        assert_eq!(ours, std, "{text}");
    }
}

#[test]
fn join_follows_pathbuf() {
    assert_eq!(join("/home/u", ".config"), "/home/u/.config");
    assert_eq!(join("/home/u/", "x"), "/home/u/x");
    assert_eq!(join("", "x"), "x");
    assert_eq!(join("/home/u", "/etc"), "/etc");
    for (a, b) in [("/home/u", "x/y"), ("a", "b"), ("/", "c"), ("", ""), ("a", "")] {
        let std = std::path::PathBuf::from(a).join(b).to_string_lossy().into_owned();
        assert_eq!(join(a, b), std);
    }
}

#[test]
fn config_file_below_home() {
    assert_eq!(config_file("/home/u"), "/home/u/.config/pxdocs/config.json");
    assert_eq!(config_file("/"), "/.config/pxdocs/config.json");
    assert_eq!(home_dir(None), ".");
    assert_eq!(home_dir(Some("/h".to_string())), "/h");
}

#[test]
fn expand_tilde() {
    assert_eq!(expand_path("~", "/home/u"), "/home/u");
    assert_eq!(expand_path("~/px-docs", "/home/u"), "/home/u/px-docs");
    assert_eq!(expand_path("~//abs", "/home/u"), "/abs");
    assert_eq!(expand_path("~user/x", "/home/u"), "~user/x");
    assert_eq!(expand_path("./x", "/home/u"), "./x");
}

#[test]
fn save_then_read_config() {
    let mut c = Config::default();
    assert_eq!(docs_path(&c), None);
    assert_eq!(remote(&c), "px-center/px-docs");
    c.remote = Some("me/docs".to_string());
    assert_eq!(remote(&c), "me/docs");
    save_docs_path(&mut c, "/home/u/px-docs");
    assert_eq!(docs_path(&c).as_deref(), Some("/home/u/px-docs"));
    assert_eq!(remote(&c), "px-center/px-docs");
}

#[test]
fn fetch_at_most_every_ten_minutes() {
    let mut c = Config::default();
    assert!(should_fetch(&c, "/p", 1_000));
    mark_docs_fetched(&mut c, "/p", 1_000);
    assert!(!should_fetch(&c, "/p", 1_000));
    assert!(!should_fetch(&c, "/p", 601_000));
    assert!(should_fetch(&c, "/p", 601_001));
    assert!(!should_fetch(&c, "/p", 10));
    assert!(should_fetch(&c, "/q", 1_000));
}

#[test]
fn marking_replaces_only_its_path() {
    let mut c = Config {
        docs_path: None,
        remote: None,
        last_fetch_at_by_path: Some(vec![
            FetchMark { path: "/p".to_string(), at: 5 },
            FetchMark { path: "/q".to_string(), at: 7 },
            FetchMark { path: "/p".to_string(), at: 9 },
        ]),
    };
    mark_docs_fetched(&mut c, "/p", 2_000_000);
    let marks = c.last_fetch_at_by_path.as_ref().unwrap();
    assert_eq!(marks.len(), 2);
    assert_eq!(marks[0].path, "/q");
    assert_eq!(marks[0].at, 7);
    assert_eq!(marks[1].path, "/p");
    assert_eq!(marks[1].at, 2_000_000);
    assert!(!should_fetch(&c, "/p", 2_000_000));
    assert!(should_fetch(&c, "/q", 2_000_000));
}

#[test]
fn markdown_files_by_extension() {
    assert!(is_markdown("/r/docs/a.md"));
    assert!(!is_markdown("/r/docs/a.md.txt"));
    assert!(!is_markdown("/r/docs/md"));
    assert!(!is_markdown("/r/docs/.md"));
    assert!(!is_markdown("/r/docs/a.MD"));
}

#[test]
fn plain_arguments_are_positionals() {
    let o = parse_options(args(&["use", "react", "", "query"])).unwrap();
    assert_eq!(o.positionals, args(&["use", "react", "", "query"]));
    assert_eq!(o.limit, 20);
    assert!(!o.remote && !o.refresh && !o.no_fetch);
    assert_eq!(o.guild, None);
}

#[test]
fn marks_stay_unique_after_marking() {
    let mut c = Config::default();
    mark_docs_fetched(&mut c, "/p", 1);
    mark_docs_fetched(&mut c, "/q", 2);
    mark_docs_fetched(&mut c, "/p", 3);
    let marks = c.last_fetch_at_by_path.as_ref().unwrap();
    let paths: Vec<&str> = marks.iter().map(|m| m.path.as_str()).collect();
    assert_eq!(paths, vec!["/q", "/p"]);
    assert_eq!(marks[1].at, 3);
}
