//! Where the docs come from: the choice between the local checkout and
//! GitHub, the docs read from either, what `gh` and `git` answered, the
//! state of the checkout, and whether to fetch after a command.

use vstd::prelude::*;
use vstd::utf8::{decode_utf8, valid_utf8};
use crate::config::{docs_path, should_fetch, Config, ConfigView, fetch_due};
use crate::doc::{describe, opt_view, parse_doc, relative_path, base_name, Doc, DocView};
use crate::options::{parse_decimal, parse_decimal_exec, strings, Options};
use crate::query::doc_views;
use crate::rank::{is_ranking, key_view, key_views, rank_order, SortKey};
use crate::text::{
    append, chars_of, copy_range, find_char, find_char_from, lemma_find_char, lines,
    split_lines, split_words, string_of, trim, trim_chars, views, words,
};

verus! {

// ---------------------------------------------------------------------------
// The clock
// ---------------------------------------------------------------------------

#[verifier::external_type_specification]
#[verifier::external_body]
pub struct ExSystemTime(std::time::SystemTime);

/// `SystemTime::now`.
#[verifier::external_body]
fn clock_now() -> std::time::SystemTime {
    std::time::SystemTime::now()
}

/// `SystemTime::duration_since` the Unix epoch, in whole milliseconds
/// (`Duration::as_millis`); `None` for a time before the epoch.
#[verifier::external_body]
fn millis_since_epoch(t: &std::time::SystemTime) -> Option<u128> {
    match t.duration_since(std::time::UNIX_EPOCH) {
        Ok(d) => Some(d.as_millis()),
        Err(_) => None,
    }
}

/// Milliseconds since the Unix epoch by the system clock; 0 when the clock
/// reads a time before the epoch.
pub fn now_ms() -> u128 {
    match millis_since_epoch(&clock_now()) {
        Some(ms) => ms,
        None => 0,
    }
}

// ---------------------------------------------------------------------------
// Choosing the source
// ---------------------------------------------------------------------------

/// Where the docs are read from.
#[derive(Debug)]
pub enum SourceChoice {
    /// The local checkout at this path.
    Local(String),
    /// GitHub, through `gh`.
    Remote,
}

/// Whether to ask the user for the checkout: docs are wanted locally and
/// none is configured.
pub fn should_prompt(remote: bool, configured: &Option<String>) -> (r: bool)
    ensures
        r == (!remote && configured is None),
{
    !remote && configured.is_none()
}

/// The source of the docs: the local checkout at `local_path` unless
/// `--remote` was given or there is none, GitHub otherwise.
pub fn load_source(remote: bool, local_path: Option<String>) -> (r: SourceChoice)
    ensures
        match r {
            SourceChoice::Local(p) => !remote && (local_path matches Some(l) && p@ == l@),
            SourceChoice::Remote => remote || local_path is None,
        },
{
    if !remote {
        if let Some(path) = local_path {
            return SourceChoice::Local(path);
        }
    }
    SourceChoice::Remote
}

// ---------------------------------------------------------------------------
// Output of commands
// ---------------------------------------------------------------------------

/// The text `String::from_utf8_lossy` reads from `bytes`.
pub uninterp spec fn lossy_text(bytes: Seq<u8>) -> Seq<char>;

/// `String::from_utf8_lossy`: the text of `bytes`, each invalid sequence
/// read as U+FFFD. Stated here: valid UTF-8 is read as it is; the rest is
/// left to the name `lossy_text`.
#[verifier::external_body]
pub(crate) fn lossy_utf8(bytes: &[u8]) -> (r: String)
    ensures
        r@ == lossy_text(bytes@),
        valid_utf8(bytes@) ==> r@ == decode_utf8(bytes@),
{
    String::from_utf8_lossy(bytes).into_owned()
}

/// What a command that ran answered: its trimmed output when it succeeded,
/// its trimmed error output otherwise.
pub open spec fn command_answer(success: bool, stdout: Seq<u8>, stderr: Seq<u8>) -> Result<
    Seq<char>,
    Seq<char>,
> {
    if success {
        Ok(trim(lossy_text(stdout)))
    } else {
        Err(trim(lossy_text(stderr)))
    }
}

/// Reads the answer of `gh` or `git` from its exit status and outputs.
pub fn command_output(success: bool, stdout: &[u8], stderr: &[u8]) -> (r: Result<String, String>)
    ensures
        match r {
            Ok(s) => command_answer(success, stdout@, stderr@) == Ok::<Seq<char>, Seq<char>>(s@),
            Err(e) => command_answer(success, stdout@, stderr@) == Err::<Seq<char>, Seq<char>>(e@),
        },
{
    if !success {
        let text = lossy_utf8(stderr);
        return Err(string_of(&trim_chars(&chars_of(&text))));
    }
    let text = lossy_utf8(stdout);
    Ok(string_of(&trim_chars(&chars_of(&text))))
}

/// `gh` is usable when `gh --version` answered.
pub fn assert_gh_available(version: Result<String, String>) -> (r: Result<(), String>)
    ensures
        match version {
            Ok(_) => r is Ok,
            Err(e) => r matches Err(f) && f@ == e@,
        },
{
    match version {
        Ok(_) => Ok(()),
        Err(e) => Err(e),
    }
}

/// The file content that `base64 -d` gave back, or the error when it failed.
pub fn decoded_content(success: bool, stdout: &[u8]) -> (r: Result<String, String>)
    ensures
        success ==> (r matches Ok(s) && s@ == lossy_text(stdout@)),
        !success ==> (r matches Err(e) && e@ == "failed to decode GitHub content"@),
{
    if !success {
        return Err(string_of(&chars_of("failed to decode GitHub content")));
    }
    Ok(lossy_utf8(stdout))
}

/// The Base64 text that `gh` gives for a file, without line breaks.
pub fn strip_newlines(content: &str) -> (r: String)
    ensures
        r@ == content@.filter(|c: char| c != '\n'),
{
    let s = chars_of(content);
    let mut out: Vec<char> = Vec::new();
    let mut i: usize = 0;
    while i < s.len()
        invariant
            i <= s@.len(),
            out@ == s@.take(i as int).filter(|c: char| c != '\n'),
        decreases s@.len() - i,
    {
        proof {
            reveal_with_fuel(Seq::<_>::filter, 1);
            assert(s@.take(i + 1).drop_last() =~= s@.take(i as int));
        }
        if s[i] != '\n' {
            out.push(s[i]);
        }
        i = i + 1;
    }
    assert(s@.take(s@.len() as int) =~= s@);
    string_of(&out)
}

// ---------------------------------------------------------------------------
// Docs read from GitHub
// ---------------------------------------------------------------------------

/// The docs that a listing of paths names, one per line, in the order of
/// the listing.
pub open spec fn listed_docs(ls: Seq<Seq<char>>) -> Seq<DocView> {
    ls.map_values(
        |l: Seq<char>| describe(relative_path(l, None), base_name(relative_path(l, None)), None),
    )
}

/// `r` lists the items of `s` in the order `o`.
pub open spec fn permuted<T>(r: Seq<T>, s: Seq<T>, o: Seq<usize>) -> bool {
    &&& r.len() == o.len()
    &&& forall|k: int| 0 <= k < r.len() ==> r[k] == #[trigger] s[o[k] as int]
}

/// The ordering keys of docs sorted by path.
pub open spec fn path_keys(ds: Seq<DocView>) -> Seq<(int, Seq<Seq<char>>)> {
    ds.map_values(|d: DocView| (0int, seq![d.path]))
}

/// The docs of the tree listing `listing` (one Markdown path per line, as
/// `gh` gives it), sorted by path.
pub fn load_remote_docs(listing: &str) -> (r: Vec<Doc>)
    ensures
        exists|o: Seq<usize>|
            #[trigger] is_ranking(path_keys(listed_docs(lines(listing@))), o) && permuted(
                doc_views(r@),
                listed_docs(lines(listing@)),
                o,
            ),
{
    let ls = split_lines(&chars_of(listing));
    let ghost ds = listed_docs(lines(listing@));
    let mut docs: Vec<Doc> = Vec::new();
    let mut keys: Vec<SortKey> = Vec::new();
    let mut i: usize = 0;
    while i < ls.len()
        invariant
            i <= ls@.len(),
            views(ls@) == lines(listing@),
            ds == listed_docs(lines(listing@)),
            docs@.len() == keys@.len() == i,
            forall|k: int| 0 <= k < i ==> (#[trigger] docs@[k])@ == ds[k],
            forall|k: int| 0 <= k < i ==> key_view(#[trigger] keys@[k]) == (0int, seq![ds[k].path]),
        decreases ls@.len() - i,
    {
        let line = string_of(&ls[i]);
        let d = parse_doc(&line, None, None);
        let mut parts: Vec<Vec<char>> = Vec::new();
        parts.push(chars_of(d.path.as_str()));
        assert(views(parts@) =~= seq![d@.path]);
        keys.push(SortKey { score: 0, parts });
        docs.push(d);
        i = i + 1;
    }
    assert(key_views(keys@) =~= path_keys(ds));
    let o = rank_order(&keys);
    let mut r: Vec<Doc> = Vec::new();
    let mut k: usize = 0;
    while k < o.len()
        invariant
            k <= o@.len() == docs@.len(),
            is_ranking(path_keys(ds), o@),
            forall|j: int| 0 <= j < docs@.len() ==> (#[trigger] docs@[j])@ == ds[j],
            r@.len() == k,
            forall|j: int| 0 <= j < k ==> (#[trigger] r@[j])@ == ds[o@[j] as int],
        decreases o@.len() - k,
    {
        r.push(docs[o[k]].duplicate());
        k = k + 1;
    }
    assert(permuted(doc_views(r@), ds, o@));
    r
}

// ---------------------------------------------------------------------------
// Docs read from the local checkout
// ---------------------------------------------------------------------------

/// A path component as `Path::components` yields it on Unix, encoded so
/// that `chars_before` orders encodings as `Component`'s order orders
/// components: the root directory, `.` at the start, `..`, then a normal
/// name, names compared by their characters.
pub open spec fn root_component() -> Seq<char> {
    seq!['\u{0}']
}

/// The encoding of a leading `.` component.
pub open spec fn current_component() -> Seq<char> {
    seq!['\u{1}']
}

/// The encoding of a `..` component.
pub open spec fn parent_component() -> Seq<char> {
    seq!['\u{2}']
}

/// The encoding of a normal component named `name`.
pub open spec fn normal_component(name: Seq<char>) -> Seq<char> {
    seq!['\u{3}'] + name
}

/// A piece of a path that is `.`.
pub open spec fn is_dot(p: Seq<char>) -> bool {
    p.len() == 1 && p[0] == '.'
}

/// A piece of a path that is `..`.
pub open spec fn is_dot_dot(p: Seq<char>) -> bool {
    p.len() == 2 && p[0] == '.' && p[1] == '.'
}

/// The components of a path after its start, from index `i` on: the pieces
/// between `/` separators, empty pieces and `.` dropped, `..` as the parent
/// component, every other piece as a normal component.
pub open spec fn body_components(s: Seq<char>, i: int) -> Seq<Seq<char>>
    decreases s.len() - i,
{
    if i < 0 || i >= s.len() {
        seq![]
    } else if s[i] == '/' {
        body_components(s, i + 1)
    } else {
        let k = find_char(s, '/', i);
        proof {
            lemma_find_char(s, '/', i);
        }
        let piece = s.subrange(i, k);
        if is_dot(piece) {
            body_components(s, k)
        } else if is_dot_dot(piece) {
            seq![parent_component()] + body_components(s, k)
        } else {
            seq![normal_component(piece)] + body_components(s, k)
        }
    }
}

/// The path starts with the root directory.
pub open spec fn starts_at_root(s: Seq<char>) -> bool {
    s.len() > 0 && s[0] == '/'
}

/// The path starts with a `.` component.
pub open spec fn starts_at_current(s: Seq<char>) -> bool {
    !starts_at_root(s) && s.len() > 0 && s[0] == '.' && (s.len() == 1 || s[1] == '/')
}

/// The components of a path (`Path::components` on Unix), encoded: the
/// root directory or a leading `.` first, then the components of the rest.
pub open spec fn components(s: Seq<char>) -> Seq<Seq<char>> {
    if starts_at_root(s) {
        seq![root_component()] + body_components(s, 0)
    } else if starts_at_current(s) {
        seq![current_component()] + body_components(s, 1)
    } else {
        body_components(s, 0)
    }
}

fn single(c: char) -> (r: Vec<char>)
    ensures
        r@ == seq![c],
{
    let mut r: Vec<char> = Vec::new();
    r.push(c);
    assert(r@ =~= seq![c]);
    r
}

fn path_components(s: &[char]) -> (r: Vec<Vec<char>>)
    ensures
        views(r@) == components(s@),
{
    let n = s.len();
    let mut out: Vec<Vec<char>> = Vec::new();
    let root = n > 0 && s[0] == '/';
    let current = !root && n > 0 && s[0] == '.' && (n == 1 || s[1] == '/');
    let mut i: usize = 0;
    if root {
        out.push(single('\u{0}'));
    } else if current {
        out.push(single('\u{1}'));
        i = 1;
    }
    let ghost head = views(out@);
    assert(components(s@) == head + body_components(s@, i as int));
    while i < n
        invariant
            i <= n == s@.len(),
            components(s@) == views(out@) + body_components(s@, i as int),
        decreases n - i,
    {
        if s[i] == '/' {
            i = i + 1;
        } else {
            let k = find_char_from(s, '/', i);
            proof {
                lemma_find_char(s@, '/', i as int);
            }
            let len = k - i;
            let dot = len == 1 && s[i] == '.';
            let dot_dot = len == 2 && s[i] == '.' && s[i + 1] == '.';
            let ghost piece = s@.subrange(i as int, k as int);
            assert(dot == is_dot(piece));
            assert(dot_dot == is_dot_dot(piece));
            if !dot {
                let c = if dot_dot {
                    single('\u{2}')
                } else {
                    let mut c = single('\u{3}');
                    append(&mut c, &copy_range(s, i, k));
                    c
                };
                let ghost before = views(out@);
                out.push(c);
                assert(views(out@) =~= before.push(c@));
            }
            i = k;
        }
    }
    assert(components(s@) =~= views(out@));
    out
}

/// The ordering keys of file paths sorted component by component.
pub open spec fn component_keys(files: Seq<Seq<char>>) -> Seq<(int, Seq<Seq<char>>)> {
    files.map_values(|f: Seq<char>| (0int, components(f)))
}

/// The files in the order of `Path` (`PathBuf`'s `Ord`): component by
/// component, as `components` encodes them.
pub fn sort_paths(files: &Vec<String>) -> (r: Vec<String>)
    ensures
        exists|o: Seq<usize>|
            #[trigger] is_ranking(component_keys(strings(files@)), o) && permuted(
                strings(r@),
                strings(files@),
                o,
            ),
{
    let ghost fs = strings(files@);
    let mut keys: Vec<SortKey> = Vec::new();
    let mut i: usize = 0;
    while i < files.len()
        invariant
            i <= files@.len(),
            fs == strings(files@),
            keys@.len() == i,
            forall|k: int| 0 <= k < i ==> key_view(#[trigger] keys@[k]) == (0int, components(fs[k])),
        decreases files@.len() - i,
    {
        let parts = path_components(&chars_of(files[i].as_str()));
        keys.push(SortKey { score: 0, parts });
        i = i + 1;
    }
    assert(key_views(keys@) =~= component_keys(fs));
    let o = rank_order(&keys);
    let mut r: Vec<String> = Vec::new();
    let mut k: usize = 0;
    while k < o.len()
        invariant
            k <= o@.len() == files@.len(),
            fs == strings(files@),
            is_ranking(component_keys(fs), o@),
            r@.len() == k,
            forall|j: int| 0 <= j < k ==> (#[trigger] r@[j])@ == fs[o@[j] as int],
        decreases o@.len() - k,
    {
        r.push(files[o[k]].clone());
        k = k + 1;
    }
    assert(permuted(strings(r@), fs, o@));
    r
}

/// A Markdown file of the checkout and its text.
#[derive(Debug)]
pub struct LocalFile {
    pub path: String,
    pub content: String,
}

/// The docs of the checkout at `root` from its Markdown files, in the
/// order of `files`.
pub fn load_local_docs(root: &str, files: &Vec<LocalFile>) -> (r: Vec<Doc>)
    ensures
        r@.len() == files@.len(),
        forall|k: int|
            0 <= k < files@.len() ==> (#[trigger] r@[k])@ == describe(
                relative_path(files@[k].path@, Some(root@)),
                base_name(relative_path(files@[k].path@, Some(root@))),
                Some(files@[k].content@),
            ),
{
    let mut r: Vec<Doc> = Vec::new();
    let mut i: usize = 0;
    while i < files.len()
        invariant
            i <= files@.len(),
            r@.len() == i,
            forall|k: int|
                0 <= k < i ==> (#[trigger] r@[k])@ == describe(
                    relative_path(files@[k].path@, Some(root@)),
                    base_name(relative_path(files@[k].path@, Some(root@))),
                    Some(files@[k].content@),
                ),
        decreases files@.len() - i,
    {
        let f = &files[i];
        r.push(parse_doc(f.path.as_str(), Some(f.content.as_str()), Some(root)));
        i = i + 1;
    }
    r
}

// ---------------------------------------------------------------------------
// State of the checkout
// ---------------------------------------------------------------------------

/// How the checkout stands against its upstream branch.
#[derive(Debug)]
pub struct RepoStatus {
    pub upstream: String,
    /// Commits of the upstream that the checkout lacks.
    pub behind: u32,
    /// Commits of the checkout that the upstream lacks.
    pub ahead: u32,
}

/// The count in word `i` of `git rev-list --count` output: 0 when the word
/// is missing or is no `u32`.
pub open spec fn count_at(ws: Seq<Seq<char>>, i: int) -> nat {
    if 0 <= i < ws.len() {
        match parse_decimal(ws[i], u32::MAX as nat) {
            Some(n) => n,
            None => 0,
        }
    } else {
        0
    }
}

fn count_at_exec(ws: &Vec<Vec<char>>, i: usize) -> (r: u32)
    ensures
        r == count_at(views(ws@), i as int),
{
    if i < ws.len() {
        match parse_decimal_exec(&ws[i], u32::MAX as u64) {
            Some(n) => n as u32,
            None => 0,
        }
    } else {
        0
    }
}

/// The state of the checkout from its upstream's name and the output of
/// `git rev-list --left-right --count <upstream>...HEAD`: the first number
/// is how far it is behind, the second how far ahead.
pub fn repo_status(upstream: String, counts: &str) -> (r: RepoStatus)
    ensures
        r.upstream@ == upstream@,
        r.behind == count_at(words(counts@), 0),
        r.ahead == count_at(words(counts@), 1),
{
    let ws = split_words(&chars_of(counts));
    let behind = count_at_exec(&ws, 0);
    let ahead = count_at_exec(&ws, 1);
    RepoStatus { upstream, behind, ahead }
}

/// The character of a decimal digit.
pub open spec fn digit_char(d: nat) -> char {
    if d == 0 {
        '0'
    } else if d == 1 {
        '1'
    } else if d == 2 {
        '2'
    } else if d == 3 {
        '3'
    } else if d == 4 {
        '4'
    } else if d == 5 {
        '5'
    } else if d == 6 {
        '6'
    } else if d == 7 {
        '7'
    } else if d == 8 {
        '8'
    } else {
        '9'
    }
}

/// The decimal notation of `n`, as `Display` writes it.
pub open spec fn decimal(n: nat) -> Seq<char>
    decreases n,
{
    if n < 10 {
        seq![digit_char(n)]
    } else {
        decimal(n / 10).push(digit_char(n % 10))
    }
}

fn digit_char_exec(d: u64) -> (c: char)
    requires
        d < 10,
    ensures
        c == digit_char(d as nat),
{
    if d == 0 {
        '0'
    } else if d == 1 {
        '1'
    } else if d == 2 {
        '2'
    } else if d == 3 {
        '3'
    } else if d == 4 {
        '4'
    } else if d == 5 {
        '5'
    } else if d == 6 {
        '6'
    } else if d == 7 {
        '7'
    } else if d == 8 {
        '8'
    } else {
        '9'
    }
}

/// Writes `n` in decimal.
pub fn decimal_exec(n: u64) -> (r: Vec<char>)
    ensures
        r@ == decimal(n as nat),
    decreases n,
{
    if n < 10 {
        let mut r: Vec<char> = Vec::new();
        r.push(digit_char_exec(n));
        assert(r@ =~= seq![digit_char(n as nat)]);
        r
    } else {
        let mut r = decimal_exec(n / 10);
        r.push(digit_char_exec(n % 10));
        r
    }
}

/// The warning printed before a local command when the checkout is known
/// to be behind its upstream.
pub open spec fn behind_message(status_behind: nat, upstream: Seq<char>) -> Seq<char> {
    "warning: px-docs is "@ + decimal(status_behind) + " commit(s) behind "@ + upstream
}

/// The warning for a checkout that is behind its upstream, none otherwise.
pub fn warn_if_known_behind(status: &RepoStatus) -> (r: Option<String>)
    ensures
        status.behind > 0 ==> (r matches Some(m) && m@ == behind_message(
            status.behind as nat,
            status.upstream@,
        )),
        status.behind == 0 ==> r is None,
{
    if status.behind == 0 {
        return None;
    }
    let mut m = chars_of("warning: px-docs is ");
    append(&mut m, &decimal_exec(status.behind as u64));
    append(&mut m, &chars_of(" commit(s) behind "));
    append(&mut m, &chars_of(status.upstream.as_str()));
    Some(string_of(&m))
}

// ---------------------------------------------------------------------------
// Fetching after a command
// ---------------------------------------------------------------------------

/// The checkout to fetch after a command, if any: none for docs read from
/// GitHub, with `--no-fetch`, or without a configured checkout; otherwise
/// the configured one when `--refresh` was given or a fetch is due at `now`.
pub open spec fn fetch_target(source_remote: bool, no_fetch: bool, refresh: bool, c: ConfigView, now: u128) -> Option<Seq<char>> {
    if source_remote || no_fetch {
        None
    } else {
        match c.docs_path {
            None => None,
            Some(p) => if !refresh && !fetch_due(c, p, now) {
                None
            } else {
                Some(p)
            },
        }
    }
}

/// Which checkout to fetch after a command, if any.
pub fn maybe_fetch_after_command(source_remote: bool, options: &Options, config: &Config, now: u128) -> (r: Option<String>)
    ensures
        opt_view(r) == fetch_target(source_remote, options.no_fetch, options.refresh, config@, now),
{
    if source_remote || options.no_fetch {
        return None;
    }
    let path = match docs_path(config) {
        Some(p) => p,
        None => return None,
    };
    if !options.refresh && !should_fetch(config, path.as_str(), now) {
        return None;
    }
    Some(path)
}

} // verus!
