//! The commands of the tool: which one the arguments name, what a query
//! command answers for a set of docs, and how docs and errors are written.

use vstd::prelude::*;
use crate::doc::{Doc, DocView};
use crate::options::{strings, Options, OptionsView};
use crate::paths::{expand_path, expanded};
use crate::query::{
    doc_views, filter_docs, filtered, find_docs, found, has_path, is_search_result,
    law_filtered_exact, law_found_complete, law_found_paths_distinct, law_found_sound,
    law_search_sound, meets_options, answers_selector, search_docs,
};
use crate::text::{
    append, chars_of, has_infix, join, join_chars, lowercase_of, str_eq, string_of, trim, trim_chars,
    views,
};

verus! {

/// A command of the tool.
#[derive(Debug, Clone, Copy, PartialEq, Eq, Structural)]
pub enum Command {
    Help,
    Setup,
    Config,
    Doctor,
    Decisions,
    Search,
    Show,
    Unknown,
}

/// The command that a name selects.
pub open spec fn command_of(name: Seq<char>) -> Command {
    if name == "help"@ || name == "--help"@ || name == "-h"@ {
        Command::Help
    } else if name == "setup"@ {
        Command::Setup
    } else if name == "config"@ {
        Command::Config
    } else if name == "doctor"@ {
        Command::Doctor
    } else if name == "decisions"@ {
        Command::Decisions
    } else if name == "search"@ {
        Command::Search
    } else if name == "show"@ {
        Command::Show
    } else {
        Command::Unknown
    }
}

/// The command that `name` selects.
pub fn command_kind(name: &str) -> (r: Command)
    ensures
        r == command_of(name@),
{
    if str_eq(name, "help") || str_eq(name, "--help") || str_eq(name, "-h") {
        Command::Help
    } else if str_eq(name, "setup") {
        Command::Setup
    } else if str_eq(name, "config") {
        Command::Config
    } else if str_eq(name, "doctor") {
        Command::Doctor
    } else if str_eq(name, "decisions") {
        Command::Decisions
    } else if str_eq(name, "search") {
        Command::Search
    } else if str_eq(name, "show") {
        Command::Show
    } else {
        Command::Unknown
    }
}

/// The command name (the first argument, `help` when there is none) and
/// the arguments after it.
pub fn split_command(args: Vec<String>) -> (r: (String, Vec<String>))
    ensures
        args@.len() == 0 ==> r.0@ == "help"@ && r.1@.len() == 0,
        args@.len() > 0 ==> r.0@ == args@[0]@ && strings(r.1@) == strings(args@).drop_first(),
{
    let mut args = args;
    if args.len() == 0 {
        return (string_of(&chars_of("help")), args);
    }
    let ghost all = strings(args@);
    let first = args.remove(0);
    assert(strings(args@) =~= all.drop_first());
    (first, args)
}

// ---------------------------------------------------------------------------
// Query commands
// ---------------------------------------------------------------------------

/// What a query command answers.
#[derive(Debug)]
pub enum QueryOutcome {
    /// Docs to list.
    Listed(Vec<Doc>),
    /// The one doc to print.
    Chosen(Doc),
}

/// Why a query command failed.
#[derive(Debug)]
pub enum QueryError {
    /// `search` without a query.
    MissingQuery,
    /// `show` without a selector.
    MissingSelector,
    /// No doc answers the selector.
    NotFound(String),
    /// Several docs answer the selector; they are listed (at most `--limit`).
    Ambiguous(String, Vec<Doc>),
    /// The command name is none of the tool's.
    UnknownCommand(String),
}

/// The first `n` items of `s`, or all of them when there are fewer.
pub open spec fn first_n<T>(s: Seq<T>, n: nat) -> Seq<T> {
    if n < s.len() {
        s.take(n as int)
    } else {
        s
    }
}

fn first_docs(docs: &Vec<Doc>, n: usize) -> (r: Vec<Doc>)
    ensures
        doc_views(r@) == first_n(doc_views(docs@), n as nat),
{
    let end = if n < docs.len() {
        n
    } else {
        docs.len()
    };
    let mut r: Vec<Doc> = Vec::new();
    let mut i: usize = 0;
    while i < end
        invariant
            i <= end <= docs@.len(),
            end == if (n as nat) < docs@.len() { n as int } else { docs@.len() as int },
            doc_views(r@) =~= doc_views(docs@).take(i as int),
        decreases end - i,
    {
        let ghost before = doc_views(r@);
        r.push(docs[i].duplicate());
        assert(doc_views(r@) =~= before.push(doc_views(docs@)[i as int]));
        i = i + 1;
    }
    assert(doc_views(docs@).take(docs@.len() as int) =~= doc_views(docs@));
    r
}

/// The text the positionals of a query command make: joined with spaces.
pub open spec fn positional_text(o: OptionsView) -> Seq<char> {
    join(o.positionals, " "@)
}

/// What query command `name` answers for `docs` with options `o`.
///
/// `decisions` lists the decision docs that pass the guild and status
/// filters; `search` lists the docs that pass the guild and status filters
/// and match the positionals as a query;
/// `show` chooses the one doc that the positionals select (an exact path,
/// an id, or a part of a path, after the type, guild and status filters).
/// Lists hold at most `--limit` docs.
pub open spec fn query_answers(
    name: Seq<char>,
    o: OptionsView,
    docs: Seq<DocView>,
    r: Result<Seq<DocView>, QueryErrorView>,
    chosen: bool,
) -> bool {
    match command_of(name) {
        Command::Decisions => !chosen && r == Ok::<Seq<DocView>, QueryErrorView>(
            first_n(filtered(docs, Some("decision"@), o.guild, o.status), o.limit),
        ),
        Command::Search => if positional_text(o).len() == 0 {
            r == Err::<Seq<DocView>, QueryErrorView>(QueryErrorView::MissingQuery)
        } else {
            !chosen && (r matches Ok(listed) && exists|full: Seq<DocView>|
                #[trigger] is_search_result(
                    full,
                    filtered(docs, None, o.guild, o.status),
                    positional_text(o),
                ) && listed == first_n(
                    full,
                    o.limit,
                ))
        },
        Command::Show => {
            let sel = positional_text(o);
            let m = found(docs, sel, o.doc_type, o.guild, o.status);
            if sel.len() == 0 {
                r == Err::<Seq<DocView>, QueryErrorView>(QueryErrorView::MissingSelector)
            } else if m.len() == 0 {
                r == Err::<Seq<DocView>, QueryErrorView>(QueryErrorView::NotFound(sel))
            } else if m.len() > 1 {
                r == Err::<Seq<DocView>, QueryErrorView>(
                    QueryErrorView::Ambiguous(sel, first_n(m, o.limit)),
                )
            } else {
                chosen && r == Ok::<Seq<DocView>, QueryErrorView>(m)
            }
        },
        _ => r == Err::<Seq<DocView>, QueryErrorView>(QueryErrorView::UnknownCommand(name)),
    }
}

/// The value of a `QueryError`.
pub enum QueryErrorView {
    MissingQuery,
    MissingSelector,
    NotFound(Seq<char>),
    Ambiguous(Seq<char>, Seq<DocView>),
    UnknownCommand(Seq<char>),
}

/// The value of a query error.
pub open spec fn error_view(e: QueryError) -> QueryErrorView {
    match e {
        QueryError::MissingQuery => QueryErrorView::MissingQuery,
        QueryError::MissingSelector => QueryErrorView::MissingSelector,
        QueryError::NotFound(s) => QueryErrorView::NotFound(s@),
        QueryError::Ambiguous(s, ds) => QueryErrorView::Ambiguous(s@, doc_views(ds@)),
        QueryError::UnknownCommand(s) => QueryErrorView::UnknownCommand(s@),
    }
}

/// The value of a query answer: the docs it lists or chooses, and whether
/// it chose one.
pub open spec fn outcome_view(r: Result<QueryOutcome, QueryError>) -> (
    Result<Seq<DocView>, QueryErrorView>,
    bool,
) {
    match r {
        Ok(QueryOutcome::Listed(ds)) => (Ok(doc_views(ds@)), false),
        Ok(QueryOutcome::Chosen(d)) => (Ok(seq![d@]), true),
        Err(e) => (Err(error_view(e)), false),
    }
}

/// Answers query command `name` (`decisions`, `search` or `show`) for
/// `docs` with `options`, as `query_answers` says.
pub fn run_query(name: &str, options: &Options, docs: &[Doc]) -> (r: Result<
    QueryOutcome,
    QueryError,
>)
    ensures
        query_answers(name@, options@, doc_views(docs@), outcome_view(r).0, outcome_view(r).1),
{
    let kind = command_kind(name);
    let guild = match &options.guild {
        Some(g) => Some(g.as_str()),
        None => None,
    };
    let status = match &options.status {
        Some(s) => Some(s.as_str()),
        None => None,
    };
    let doc_type = match &options.doc_type {
        Some(t) => Some(t.as_str()),
        None => None,
    };
    let mut pos: Vec<Vec<char>> = Vec::new();
    let mut i: usize = 0;
    while i < options.positionals.len()
        invariant
            i <= options.positionals@.len(),
            views(pos@) =~= strings(options.positionals@).take(i as int),
        decreases options.positionals@.len() - i,
    {
        let ghost before = views(pos@);
        pos.push(chars_of(options.positionals[i].as_str()));
        assert(views(pos@) =~= before.push(strings(options.positionals@)[i as int]));
        i = i + 1;
    }
    assert(strings(options.positionals@).take(options.positionals@.len() as int) =~= strings(
        options.positionals@,
    ));
    let text = join_chars(&pos, &chars_of(" "));
    match kind {
        Command::Decisions => {
            let ds = filter_docs(docs, Some("decision"), guild, status);
            Ok(QueryOutcome::Listed(first_docs(&ds, options.limit)))
        },
        Command::Search => {
            if text.len() == 0 {
                return Err(QueryError::MissingQuery);
            }
            let query = string_of(&text);
            let scoped = filter_docs(docs, None, guild, status);
            let ds = search_docs(&scoped, query.as_str());
            let r = first_docs(&ds, options.limit);
            assert(is_search_result(
                doc_views(ds@),
                filtered(doc_views(docs@), None, options@.guild, options@.status),
                positional_text(options@),
            ));
            Ok(QueryOutcome::Listed(r))
        },
        Command::Show => {
            if text.len() == 0 {
                return Err(QueryError::MissingSelector);
            }
            let selector = string_of(&text);
            let m = find_docs(docs, selector.as_str(), doc_type, guild, status);
            if m.len() == 0 {
                return Err(QueryError::NotFound(selector));
            }
            if m.len() > 1 {
                return Err(QueryError::Ambiguous(selector, first_docs(&m, options.limit)));
            }
            let d = m[0].duplicate();
            assert(seq![d@] =~= doc_views(m@));
            Ok(QueryOutcome::Chosen(d))
        },
        _ => Err(QueryError::UnknownCommand(string_of(&chars_of(name)))),
    }
}

/// The message of a query error.
pub open spec fn error_message(e: QueryErrorView) -> Seq<char> {
    match e {
        QueryErrorView::MissingQuery => "search requires a query"@,
        QueryErrorView::MissingSelector => "show requires a path or id"@,
        QueryErrorView::NotFound(s) => "doc not found: "@ + s,
        QueryErrorView::Ambiguous(s, _) => "ambiguous selector: "@ + s
            + ". narrow with --guild or use a path"@,
        QueryErrorView::UnknownCommand(s) => "unknown command: "@ + s,
    }
}

impl QueryError {
    /// The message the tool prints for this error.
    pub fn message(&self) -> (r: String)
        ensures
            r@ == error_message(error_view(*self)),
    {
        match self {
            QueryError::MissingQuery => string_of(&chars_of("search requires a query")),
            QueryError::MissingSelector => string_of(&chars_of("show requires a path or id")),
            QueryError::NotFound(s) => {
                let mut m = chars_of("doc not found: ");
                append(&mut m, &chars_of(s.as_str()));
                string_of(&m)
            },
            QueryError::Ambiguous(s, _) => {
                let mut m = chars_of("ambiguous selector: ");
                append(&mut m, &chars_of(s.as_str()));
                append(&mut m, &chars_of(". narrow with --guild or use a path"));
                string_of(&m)
            },
            QueryError::UnknownCommand(s) => {
                let mut m = chars_of("unknown command: ");
                append(&mut m, &chars_of(s.as_str()));
                string_of(&m)
            },
        }
    }
}

// ---------------------------------------------------------------------------
// Writing docs
// ---------------------------------------------------------------------------

/// The labels shown after a doc's title: its type, its guild if any, its
/// status.
pub open spec fn labels(d: DocView) -> Seq<Seq<char>> {
    match d.guild {
        Some(g) => seq![d.doc_type, g, d.status],
        None => seq![d.doc_type, d.status],
    }
}

/// How a doc is listed: its path, then indented its title and labels.
pub open spec fn listing_of(d: DocView) -> Seq<char> {
    d.path + "\n  "@ + d.title + " ("@ + join(labels(d), " \u{b7} "@) + ")"@
}

/// The two lines that list `doc`.
pub fn format_doc(doc: &Doc) -> (r: String)
    ensures
        r@ == listing_of(doc@),
{
    let mut suffix: Vec<Vec<char>> = Vec::new();
    suffix.push(chars_of(doc.doc_type.as_str()));
    match &doc.guild {
        Some(g) => suffix.push(chars_of(g.as_str())),
        None => {},
    }
    suffix.push(chars_of(doc.status.as_str()));
    assert(views(suffix@) =~= labels(doc@));
    let mut out = chars_of(doc.path.as_str());
    append(&mut out, &chars_of("\n  "));
    append(&mut out, &chars_of(doc.title.as_str()));
    append(&mut out, &chars_of(" ("));
    append(&mut out, &join_chars(&suffix, &chars_of(" \u{b7} ")));
    append(&mut out, &chars_of(")"));
    string_of(&out)
}

// ---------------------------------------------------------------------------
// The checkout path the user types
// ---------------------------------------------------------------------------

/// The checkout path read from what the user typed: trimmed, `~` expanded
/// against `home`; nothing when it is empty and may be.
pub open spec fn typed_docs_path(raw: Seq<char>, allow_empty: bool, home: Seq<char>) -> Option<Seq<char>> {
    let t = trim(raw);
    if t.len() == 0 && allow_empty {
        None
    } else {
        Some(expanded(t, home))
    }
}

/// Reads the checkout path from what the user typed; `None` means that the
/// user chose the GitHub fallback.
pub fn read_docs_path_answer(raw: &str, allow_empty: bool, home: &str) -> (r: Option<String>)
    ensures
        match r {
            Some(p) => typed_docs_path(raw@, allow_empty, home@) == Some(p@),
            None => typed_docs_path(raw@, allow_empty, home@) is None,
        },
{
    let t = trim_chars(&chars_of(raw));
    if t.len() == 0 && allow_empty {
        return None;
    }
    let ts = string_of(&t);
    Some(expand_path(ts.as_str(), home))
}

// ---------------------------------------------------------------------------
// Laws of the query commands
// ---------------------------------------------------------------------------

proof fn lemma_first_n_within<T>(s: Seq<T>, n: nat, k: int)
    requires
        0 <= k < first_n(s, n).len(),
    ensures
        first_n(s, n).len() <= n,
        first_n(s, n).len() <= s.len(),
        first_n(s, n)[k] == s[k],
        s.contains(first_n(s, n)[k]),
{
}

/// `decisions` lists at most `--limit` docs, each a decision doc of the
/// docs given with the `--guild` and `--status` asked for; every such doc
/// is listed unless `--limit` docs are.
pub proof fn law_decisions_lists_filtered(
    name: Seq<char>,
    o: OptionsView,
    docs: Seq<DocView>,
    r: Result<Seq<DocView>, QueryErrorView>,
    chosen: bool,
    listed: Seq<DocView>,
    d: DocView,
)
    requires
        command_of(name) == Command::Decisions,
        query_answers(name, o, docs, r, chosen),
    ensures
        r == Ok::<Seq<DocView>, QueryErrorView>(listed) ==> listed.len() <= o.limit,
        r == Ok::<Seq<DocView>, QueryErrorView>(listed) && listed.contains(d) ==> docs.contains(d)
            && d.doc_type == "decision"@ && meets_options(d, None, o.guild, o.status),
        r == Ok::<Seq<DocView>, QueryErrorView>(listed) && docs.contains(d) && d.doc_type
            == "decision"@ && meets_options(d, None, o.guild, o.status) ==> listed.contains(d)
            || listed.len() == o.limit,
        r is Ok,
{
    let f = filtered(docs, Some("decision"@), o.guild, o.status);
    law_filtered_exact(docs, Some("decision"@), o.guild, o.status, d);
    if r == Ok::<Seq<DocView>, QueryErrorView>(listed) {
        assert(listed == first_n(f, o.limit));
        if listed.contains(d) {
            let k = choose|k: int| 0 <= k < listed.len() && listed[k] == d;
            lemma_first_n_within(f, o.limit, k);
        }
    }
}

/// `search` lists at most `--limit` docs, each one of the docs given with the
/// `--guild` and `--status` asked for and a term of the query.
pub proof fn law_search_lists_filtered(
    name: Seq<char>,
    o: OptionsView,
    docs: Seq<DocView>,
    r: Result<Seq<DocView>, QueryErrorView>,
    chosen: bool,
    listed: Seq<DocView>,
    d: DocView,
)
    requires
        command_of(name) == Command::Search,
        query_answers(name, o, docs, r, chosen),
        r == Ok::<Seq<DocView>, QueryErrorView>(listed),
        listed.contains(d),
    ensures
        listed.len() <= o.limit,
        docs.contains(d),
        meets_options(d, None, o.guild, o.status),
{
    let scoped = filtered(docs, None, o.guild, o.status);
    let full = choose|full: Seq<DocView>|
        #[trigger] is_search_result(full, scoped, positional_text(o)) && listed == first_n(
            full,
            o.limit,
        );
    let k = choose|k: int| 0 <= k < listed.len() && listed[k] == d;
    lemma_first_n_within(full, o.limit, k);
    law_search_sound(full, scoped, positional_text(o), k);
    law_filtered_exact(docs, None, o.guild, o.status, d);
}

/// When `show` chooses a doc, it is one of the docs given, it has the type,
/// guild and status asked for and answers the selector, and every other doc
/// that does so has its path.
pub proof fn law_show_chosen(
    name: Seq<char>,
    o: OptionsView,
    docs: Seq<DocView>,
    r: Result<Seq<DocView>, QueryErrorView>,
    listed: Seq<DocView>,
    e: DocView,
)
    requires
        command_of(name) == Command::Show,
        query_answers(name, o, docs, r, true),
        r == Ok::<Seq<DocView>, QueryErrorView>(listed),
    ensures
        listed.len() == 1,
        docs.contains(listed[0]),
        meets_options(listed[0], o.doc_type, o.guild, o.status),
        answers_selector(listed[0], positional_text(o)),
        docs.contains(e) && meets_options(e, o.doc_type, o.guild, o.status) && answers_selector(
            e,
            positional_text(o),
        ) ==> e.path == listed[0].path,
{
    let sel = positional_text(o);
    let m = found(docs, sel, o.doc_type, o.guild, o.status);
    law_found_sound(docs, sel, o.doc_type, o.guild, o.status, 0);
    law_filtered_exact(docs, o.doc_type, o.guild, o.status, m[0]);
    if docs.contains(e) && meets_options(e, o.doc_type, o.guild, o.status) && answers_selector(
        e,
        sel,
    ) {
        law_found_complete(docs, sel, o.doc_type, o.guild, o.status, e);
        let k = choose|k: int| 0 <= k < m.len() && (#[trigger] m[k]).path == e.path;
    }
}

/// When `show` finds the selector ambiguous, two docs of different paths
/// with the type, guild and status asked for answer it; each doc it lists
/// is one of them.
pub proof fn law_show_ambiguous(
    name: Seq<char>,
    o: OptionsView,
    docs: Seq<DocView>,
    r: Result<Seq<DocView>, QueryErrorView>,
    chosen: bool,
    sel: Seq<char>,
    listed: Seq<DocView>,
    k: int,
)
    requires
        command_of(name) == Command::Show,
        query_answers(name, o, docs, r, chosen),
        r == Err::<Seq<DocView>, QueryErrorView>(QueryErrorView::Ambiguous(sel, listed)),
    ensures
        sel == positional_text(o),
        listed.len() <= o.limit,
        exists|a: DocView, b: DocView|
            #![trigger docs.contains(a), docs.contains(b)]
            docs.contains(a) && docs.contains(b) && a.path != b.path && meets_options(
                a,
                o.doc_type,
                o.guild,
                o.status,
            ) && meets_options(b, o.doc_type, o.guild, o.status) && answers_selector(a, sel)
                && answers_selector(b, sel),
        0 <= k < listed.len() ==> docs.contains(listed[k]) && meets_options(
            listed[k],
            o.doc_type,
            o.guild,
            o.status,
        ) && answers_selector(listed[k], sel),
{
    let m = found(docs, sel, o.doc_type, o.guild, o.status);
    law_found_paths_distinct(docs, sel, o.doc_type, o.guild, o.status);
    law_found_sound(docs, sel, o.doc_type, o.guild, o.status, 0);
    law_found_sound(docs, sel, o.doc_type, o.guild, o.status, 1);
    law_filtered_exact(docs, o.doc_type, o.guild, o.status, m[0]);
    law_filtered_exact(docs, o.doc_type, o.guild, o.status, m[1]);
    assert(docs.contains(m[0]) && docs.contains(m[1]));
    if 0 <= k < listed.len() {
        lemma_first_n_within(m, o.limit, k);
        law_found_sound(docs, sel, o.doc_type, o.guild, o.status, k);
        law_filtered_exact(docs, o.doc_type, o.guild, o.status, m[k]);
    }
}

/// When `show` finds nothing for the selector, no doc with the type, guild
/// and status asked for answers it.
pub proof fn law_show_not_found(
    name: Seq<char>,
    o: OptionsView,
    docs: Seq<DocView>,
    r: Result<Seq<DocView>, QueryErrorView>,
    chosen: bool,
    sel: Seq<char>,
    e: DocView,
)
    requires
        command_of(name) == Command::Show,
        query_answers(name, o, docs, r, chosen),
        r == Err::<Seq<DocView>, QueryErrorView>(QueryErrorView::NotFound(sel)),
    ensures
        sel == positional_text(o),
        !(docs.contains(e) && meets_options(e, o.doc_type, o.guild, o.status) && answers_selector(
            e,
            sel,
        )),
{
    if docs.contains(e) && meets_options(e, o.doc_type, o.guild, o.status) && answers_selector(
        e,
        sel,
    ) {
        law_filtered_exact(docs, o.doc_type, o.guild, o.status, e);
        law_found_complete(docs, sel, o.doc_type, o.guild, o.status, e);
    }
}

} // verus!
