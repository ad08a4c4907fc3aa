//! The metadata of one doc: where it lives, its title, status, type, guild,
//! id and summary, read from its path and (when it is local) its Markdown.

use vstd::prelude::*;
use crate::paths::{file_stem, path_file_stem, path_without_prefix, strip_path_prefix};
use crate::text::{
    append, chars_of, contains, copy_range, eq_ignore_ascii_case, equal_ignoring_ascii_case,
    find_char, find_char_from, has_infix, has_prefix, is_digit, lemma_find_char, lines,
    replace_char, replace_chars, split_lines, starts_with, string_of, trim, trim_chars, views,
};

verus! {

/// One doc of the px-docs repository.
#[derive(Debug)]
pub struct Doc {
    /// Path relative to the repository root, with `/` separators.
    pub path: String,
    pub title: String,
    pub status: String,
    pub doc_type: String,
    pub guild: Option<String>,
    pub id: Option<String>,
    pub summary: Option<String>,
}

/// The value a `Doc` holds.
pub struct DocView {
    pub path: Seq<char>,
    pub title: Seq<char>,
    pub status: Seq<char>,
    pub doc_type: Seq<char>,
    pub guild: Option<Seq<char>>,
    pub id: Option<Seq<char>>,
    pub summary: Option<Seq<char>>,
}

/// The characters of an optional string.
pub open spec fn opt_view(o: Option<String>) -> Option<Seq<char>> {
    match o {
        Some(s) => Some(s@),
        None => None,
    }
}

/// The characters of an optional string slice.
pub open spec fn opt_str_view(o: Option<&str>) -> Option<Seq<char>> {
    match o {
        Some(s) => Some(s@),
        None => None,
    }
}

impl View for Doc {
    type V = DocView;

    open spec fn view(&self) -> DocView {
        DocView {
            path: self.path@,
            title: self.title@,
            status: self.status@,
            doc_type: self.doc_type@,
            guild: opt_view(self.guild),
            id: opt_view(self.id),
            summary: opt_view(self.summary),
        }
    }
}

/// A copy of an optional string.
pub fn copy_opt(o: &Option<String>) -> (r: Option<String>)
    ensures
        opt_view(r) == opt_view(*o),
{
    match o {
        Some(s) => Some(s.clone()),
        None => None,
    }
}

/// An optional string made of optional characters.
pub fn opt_string(o: Option<Vec<char>>) -> (r: Option<String>)
    ensures
        opt_view(r) == match o {
            Some(v) => Some(v@),
            None => None::<Seq<char>>,
        },
{
    match o {
        Some(v) => Some(string_of(&v)),
        None => None,
    }
}

impl Doc {
    /// A copy of this doc.
    pub fn duplicate(&self) -> (r: Doc)
        ensures
            r@ == self@,
    {
        Doc {
            path: self.path.clone(),
            title: self.title.clone(),
            status: self.status.clone(),
            doc_type: self.doc_type.clone(),
            guild: copy_opt(&self.guild),
            id: copy_opt(&self.id),
            summary: copy_opt(&self.summary),
        }
    }
}

// ---------------------------------------------------------------------------
// Names derived from the file name
// ---------------------------------------------------------------------------

/// The base name without one leading `adr-` and then one leading `rfc-`.
pub open spec fn strip_kind_prefixes(base: Seq<char>) -> Seq<char> {
    let r1 = if has_prefix(base, "adr-"@) {
        base.skip("adr-"@.len() as int)
    } else {
        base
    };
    if has_prefix(r1, "rfc-"@) {
        r1.skip("rfc-"@.len() as int)
    } else {
        r1
    }
}

fn strip_kind_prefixes_exec(base: &[char]) -> (r: Vec<char>)
    ensures
        r@ == strip_kind_prefixes(base@),
{
    let adr = chars_of("adr-");
    let r1 = if starts_with(base, &adr) {
        copy_range(base, adr.len(), base.len())
    } else {
        copy_range(base, 0, base.len())
    };
    assert(base@.subrange(0, base@.len() as int) =~= base@);
    let rfc = chars_of("rfc-");
    if starts_with(&r1, &rfc) {
        copy_range(&r1, rfc.len(), r1.len())
    } else {
        r1
    }
}

/// A character that `title_from_basename` drops from the front of a name.
pub open spec fn is_number_char(c: char) -> bool {
    is_digit(c) || c == '-'
}

/// The first index at or after `i` whose character `keep` does not accept,
/// or `s.len()`: `keep` is `is_number_char` when `dashes` holds and
/// `is_digit` otherwise.
pub open spec fn run_end(s: Seq<char>, i: int, dashes: bool) -> int
    decreases s.len() - i,
{
    if i >= s.len() {
        s.len() as int
    } else if is_digit(s[i]) || (dashes && s[i] == '-') {
        run_end(s, i + 1, dashes)
    } else {
        i
    }
}

pub proof fn lemma_run_end(s: Seq<char>, i: int, dashes: bool)
    requires
        0 <= i <= s.len(),
    ensures
        i <= run_end(s, i, dashes) <= s.len(),
    decreases s.len() - i,
{
    if i < s.len() && (is_digit(s[i]) || (dashes && s[i] == '-')) {
        lemma_run_end(s, i + 1, dashes);
    }
}

fn run_end_exec(s: &[char], dashes: bool) -> (r: usize)
    ensures
        r == run_end(s@, 0, dashes),
        r <= s@.len(),
{
    let mut k: usize = 0;
    while k < s.len() && (('0' <= s[k] && s[k] <= '9') || (dashes && s[k] == '-'))
        invariant
            k <= s@.len(),
            run_end(s@, 0, dashes) == run_end(s@, k as int, dashes),
        decreases s@.len() - k,
    {
        k = k + 1;
    }
    k
}

/// The title given to a doc whose Markdown names none: the base name without
/// its kind prefixes and number, with dashes read as spaces; the base name
/// itself when nothing is left.
pub open spec fn title_of(base: Seq<char>) -> Seq<char> {
    let rest = strip_kind_prefixes(base);
    let words = rest.skip(run_end(rest, 0, true));
    if words.len() == 0 {
        base
    } else {
        replace_char(words, '-', ' ')
    }
}

/// The number a doc's base name carries after its kind prefixes, if any.
pub open spec fn id_of(base: Seq<char>) -> Option<Seq<char>> {
    let rest = strip_kind_prefixes(base);
    let digits = rest.take(run_end(rest, 0, false));
    if digits.len() == 0 {
        None
    } else {
        Some(digits)
    }
}

/// Title of a doc from its base name, e.g. `adr-011-use-react-query` gives
/// `use react query`.
pub fn title_from_basename(base: &str) -> (r: String)
    ensures
        r@ == title_of(base@),
{
    let b = chars_of(base);
    let rest = strip_kind_prefixes_exec(&b);
    let k = run_end_exec(&rest, true);
    let words = copy_range(&rest, k, rest.len());
    if words.len() == 0 {
        string_of(&b)
    } else {
        string_of(&replace_chars(&words, '-', ' '))
    }
}

/// Id of a doc from its base name: the digits that follow its kind
/// prefixes, e.g. `011` for `adr-011-use-react-query`.
pub fn id_from_basename(base: &str) -> (r: Option<String>)
    ensures
        opt_view(r) == id_of(base@),
{
    let b = chars_of(base);
    let rest = strip_kind_prefixes_exec(&b);
    let k = run_end_exec(&rest, false);
    let digits = copy_range(&rest, 0, k);
    if digits.len() == 0 {
        None
    } else {
        Some(string_of(&digits))
    }
}

// ---------------------------------------------------------------------------
// Names derived from the path
// ---------------------------------------------------------------------------

/// The type of a doc, read from the directories on its path.
pub open spec fn doc_type_of(path: Seq<char>) -> Seq<char> {
    if has_infix(path, "/decisions/"@) {
        "decision"@
    } else if has_infix(path, "/ADRs/"@) {
        "adr"@
    } else if has_infix(path, "/RFCs/"@) || has_infix(path, "/rfcs/"@) {
        "rfc"@
    } else if has_infix(path, "/guides/"@) {
        "guide"@
    } else {
        "doc"@
    }
}

/// Type of a doc from its path: `decision`, `adr`, `rfc`, `guide` or `doc`.
pub fn doc_type(path: &str) -> (r: &'static str)
    ensures
        r@ == doc_type_of(path@),
{
    let p = chars_of(path);
    if contains(&p, &chars_of("/decisions/")) {
        "decision"
    } else if contains(&p, &chars_of("/ADRs/")) {
        "adr"
    } else if contains(&p, &chars_of("/RFCs/")) || contains(&p, &chars_of("/rfcs/")) {
        "rfc"
    } else if contains(&p, &chars_of("/guides/")) {
        "guide"
    } else {
        "doc"
    }
}

/// The directory prefix of the docs of guild `g`.
pub open spec fn guild_dir(g: Seq<char>) -> Seq<char> {
    "docs/"@ + g + "-guild/"@
}

/// The guild whose directory holds a doc, if any.
pub open spec fn guild_of(path: Seq<char>) -> Option<Seq<char>> {
    if has_prefix(path, guild_dir("front"@)) {
        Some("front"@)
    } else if has_prefix(path, guild_dir("back"@)) {
        Some("back"@)
    } else if has_prefix(path, guild_dir("qa"@)) {
        Some("qa"@)
    } else {
        None
    }
}

fn in_guild_dir(p: &[char], g: &str) -> (r: bool)
    ensures
        r == has_prefix(p@, guild_dir(g@)),
{
    let mut dir = chars_of("docs/");
    append(&mut dir, &chars_of(g));
    append(&mut dir, &chars_of("-guild/"));
    starts_with(p, &dir)
}

/// Guild of a doc from its path: `front`, `back` or `qa` for docs under
/// `docs/<guild>-guild/`.
pub fn guild(path: &str) -> (r: Option<String>)
    ensures
        opt_view(r) == guild_of(path@),
{
    let p = chars_of(path);
    if in_guild_dir(&p, "front") {
        Some(string_of(&chars_of("front")))
    } else if in_guild_dir(&p, "back") {
        Some(string_of(&chars_of("back")))
    } else if in_guild_dir(&p, "qa") {
        Some(string_of(&chars_of("qa")))
    } else {
        None
    }
}

// ---------------------------------------------------------------------------
// Metadata read from the Markdown text
// ---------------------------------------------------------------------------

/// A line that opens with a top-level Markdown heading.
pub open spec fn is_heading(l: Seq<char>) -> bool {
    has_prefix(l, "# "@)
}

/// The trimmed text of the first heading line at or after line `i`.
pub open spec fn heading_from(ls: Seq<Seq<char>>, i: int) -> Option<Seq<char>>
    decreases ls.len() - i,
{
    if i < 0 || i >= ls.len() {
        None
    } else if is_heading(ls[i]) {
        Some(trim(ls[i].skip("# "@.len() as int)))
    } else {
        heading_from(ls, i + 1)
    }
}

/// The index of the first `:` of a line, or its length.
pub open spec fn colon_at(l: Seq<char>) -> int {
    find_char(l, ':', 0)
}

/// A `key: value` line whose trimmed key is `field`, ignoring ASCII case.
pub open spec fn is_field_line(l: Seq<char>, field: Seq<char>) -> bool {
    colon_at(l) < l.len() && eq_ignore_ascii_case(trim(l.take(colon_at(l))), field)
}

/// The trimmed value of a `key: value` line.
pub open spec fn field_value(l: Seq<char>) -> Seq<char> {
    trim(l.skip(colon_at(l) + 1))
}

/// The value of the first line at or after line `i` that sets `field`.
pub open spec fn field_from(ls: Seq<Seq<char>>, field: Seq<char>, i: int) -> Option<Seq<char>>
    decreases ls.len() - i,
{
    if i < 0 || i >= ls.len() {
        None
    } else if is_field_line(ls[i], field) {
        Some(field_value(ls[i]))
    } else {
        field_from(ls, field, i + 1)
    }
}

/// The value of `field` in a Markdown text: the first `field: value` line.
pub open spec fn field_in(text: Seq<char>, field: Seq<char>) -> Option<Seq<char>> {
    field_from(lines(text), field, 0)
}

/// A line that reads as prose: not blank, no heading, no `key: value`.
pub open spec fn is_prose_line(l: Seq<char>) -> bool {
    let t = trim(l);
    t.len() > 0 && t[0] != '#' && !t.contains(':')
}

/// The trimmed first prose line at or after line `i`.
pub open spec fn summary_from(ls: Seq<Seq<char>>, i: int) -> Option<Seq<char>>
    decreases ls.len() - i,
{
    if i < 0 || i >= ls.len() {
        None
    } else if is_prose_line(ls[i]) {
        Some(trim(ls[i]))
    } else {
        summary_from(ls, i + 1)
    }
}

/// The metadata of a doc at relative path `path`, with base name `base`
/// and, when it was read, Markdown text `content`.
pub open spec fn describe(path: Seq<char>, base: Seq<char>, content: Option<Seq<char>>) -> DocView {
    let heading = match content {
        Some(t) => heading_from(lines(t), 0),
        None => None,
    };
    let status = match content {
        Some(t) => field_in(t, "Status"@),
        None => None,
    };
    DocView {
        path,
        title: match heading {
            Some(h) => h,
            None => title_of(base),
        },
        status: match status {
            Some(v) => v,
            None => "unknown"@,
        },
        doc_type: doc_type_of(path),
        guild: guild_of(path),
        id: id_of(base),
        summary: match content {
            Some(t) => summary_from(lines(t), 0),
            None => None,
        },
    }
}

fn heading_exec(ls: &Vec<Vec<char>>) -> (r: Option<Vec<char>>)
    ensures
        r matches Some(v) ==> heading_from(views(ls@), 0) == Some(v@),
        r is None ==> heading_from(views(ls@), 0) is None,
{
    let hp = chars_of("# ");
    let ghost vs = views(ls@);
    let mut i: usize = 0;
    while i < ls.len()
        invariant
            i <= ls@.len(),
            vs == views(ls@),
            hp@ == "# "@,
            heading_from(vs, 0) == heading_from(vs, i as int),
        decreases ls@.len() - i,
    {
        let l = &ls[i];
        if starts_with(l, &hp) {
            let rest = copy_range(l, hp.len(), l.len());
            assert(rest@ == vs[i as int].skip("# "@.len() as int));
            return Some(trim_chars(&rest));
        }
        i = i + 1;
    }
    None
}

fn field_exec(ls: &Vec<Vec<char>>, field: &[char]) -> (r: Option<Vec<char>>)
    ensures
        r matches Some(v) ==> field_from(views(ls@), field@, 0) == Some(v@),
        r is None ==> field_from(views(ls@), field@, 0) is None,
{
    let ghost vs = views(ls@);
    let mut i: usize = 0;
    while i < ls.len()
        invariant
            i <= ls@.len(),
            vs == views(ls@),
            field_from(vs, field@, 0) == field_from(vs, field@, i as int),
        decreases ls@.len() - i,
    {
        let l = &ls[i];
        let k = find_char_from(l, ':', 0);
        if k < l.len() {
            let key = trim_chars(&copy_range(l, 0, k));
            if equal_ignoring_ascii_case(&key, field) {
                let value = copy_range(l, k + 1, l.len());
                return Some(trim_chars(&value));
            }
        }
        i = i + 1;
    }
    None
}

fn summary_exec(ls: &Vec<Vec<char>>) -> (r: Option<Vec<char>>)
    ensures
        r matches Some(v) ==> summary_from(views(ls@), 0) == Some(v@),
        r is None ==> summary_from(views(ls@), 0) is None,
{
    let ghost vs = views(ls@);
    let mut i: usize = 0;
    while i < ls.len()
        invariant
            i <= ls@.len(),
            vs == views(ls@),
            summary_from(vs, 0) == summary_from(vs, i as int),
        decreases ls@.len() - i,
    {
        let t = trim_chars(&ls[i]);
        if t.len() > 0 && t[0] != '#' && find_char_from(&t, ':', 0) == t.len() {
            proof {
                lemma_find_char(t@, ':', 0);
                assert(!t@.contains(':'));
            }
            return Some(t);
        }
        proof {
            if t@.len() > 0 && t@[0] != '#' {
                lemma_find_char(t@, ':', 0);
                assert(t@.contains(':'));
            }
        }
        i = i + 1;
    }
    None
}

/// The value of the first `field: value` line of `content` (the key
/// trimmed and compared ignoring ASCII case, the value trimmed).
pub fn find_field(content: &str, field: &str) -> (r: Option<String>)
    ensures
        opt_view(r) == field_in(content@, field@),
{
    let ls = split_lines(&chars_of(content));
    opt_string(field_exec(&ls, &chars_of(field)))
}

/// The doc at relative path `path` with base name `base`, described from
/// its path and, when given, its Markdown text.
pub fn doc_from_parts(path: &str, base: &str, content: Option<&str>) -> (d: Doc)
    ensures
        d@ == describe(path@, base@, opt_str_view(content)),
{
    let (heading, status, summary) = match content {
        Some(text) => {
            let ls = split_lines(&chars_of(text));
            (heading_exec(&ls), field_exec(&ls, &chars_of("Status")), summary_exec(&ls))
        },
        None => (None, None, None),
    };
    let title = match heading {
        Some(h) => string_of(&h),
        None => title_from_basename(base),
    };
    let status = match status {
        Some(v) => string_of(&v),
        None => string_of(&chars_of("unknown")),
    };
    Doc {
        path: string_of(&chars_of(path)),
        title,
        status,
        doc_type: string_of(&chars_of(doc_type(path))),
        guild: guild(path),
        id: id_from_basename(base),
        summary: opt_string(summary),
    }
}

/// The path of `file` relative to `root` (when `root` is one of its
/// prefixes), with `\` read as `/`.
pub open spec fn relative_path(file: Seq<char>, root: Option<Seq<char>>) -> Seq<char> {
    let rel = match root {
        Some(r) => match path_without_prefix(file, r) {
            Some(x) => x,
            None => file,
        },
        None => file,
    };
    replace_char(rel, '\\', '/')
}

/// The base name of a doc: the file stem of its path, or the whole path
/// when it has none.
pub open spec fn base_name(path: Seq<char>) -> Seq<char> {
    match path_file_stem(path) {
        Some(b) => b,
        None => path,
    }
}

/// The doc at `file`, described relative to `root` (when given) and from
/// its Markdown text (when it was read).
pub fn parse_doc(file: &str, content: Option<&str>, root: Option<&str>) -> (d: Doc)
    ensures
        d@ == describe(
            relative_path(file@, opt_str_view(root)),
            base_name(relative_path(file@, opt_str_view(root))),
            opt_str_view(content),
        ),
{
    let rel = match root {
        Some(r) => match strip_path_prefix(file, r) {
            Some(x) => x,
            None => string_of(&chars_of(file)),
        },
        None => string_of(&chars_of(file)),
    };
    let normalized = string_of(&replace_chars(&chars_of(&rel), '\\', '/'));
    let base = match file_stem(&normalized) {
        Some(b) => b,
        None => normalized.clone(),
    };
    doc_from_parts(&normalized, &base, content)
}

// ---------------------------------------------------------------------------
// Laws of the names derived from paths
// ---------------------------------------------------------------------------

proof fn lemma_run_digits(s: Seq<char>, i: int, j: int)
    requires
        0 <= i <= j < run_end(s, i, false),
        run_end(s, i, false) <= s.len(),
    ensures
        is_digit(s[j]),
    decreases j - i,
{
    if i < j {
        lemma_run_digits(s, i + 1, j);
    }
}

/// A doc's id, when it has one, is a non-empty run of decimal digits.
pub proof fn law_id_is_digits(base: Seq<char>)
    ensures
        id_of(base) matches Some(d) ==> d.len() > 0 && forall|i: int|
            0 <= i < d.len() ==> is_digit(#[trigger] d[i]),
{
    let rest = strip_kind_prefixes(base);
    lemma_run_end(rest, 0, false);
    if let Some(d) = id_of(base) {
        assert forall|i: int| 0 <= i < d.len() implies is_digit(#[trigger] d[i]) by {
            lemma_run_digits(rest, 0, i);
        }
    }
}

/// A doc with a non-empty base name has a non-empty title.
pub proof fn law_title_nonempty(base: Seq<char>)
    requires
        base.len() > 0,
    ensures
        title_of(base).len() > 0,
{
}

/// Every doc is of one of five types.
pub proof fn law_doc_type_known(path: Seq<char>)
    ensures
        doc_type_of(path) == "decision"@ || doc_type_of(path) == "adr"@ || doc_type_of(path)
            == "rfc"@ || doc_type_of(path) == "guide"@ || doc_type_of(path) == "doc"@,
{
}

/// A doc belongs to a guild only when its path lies in that guild's
/// directory.
pub proof fn law_guild_from_directory(path: Seq<char>)
    ensures
        guild_of(path) matches Some(g) ==> has_prefix(path, guild_dir(g)),
{
}

// ---------------------------------------------------------------------------
// Laws of the metadata read from the Markdown text
// ---------------------------------------------------------------------------

proof fn lemma_heading_first(ls: Seq<Seq<char>>, i: int, j: int)
    requires
        0 <= i <= j < ls.len(),
        has_prefix(ls[j], "# "@),
        forall|x: int| i <= x < j ==> !has_prefix(#[trigger] ls[x], "# "@),
    ensures
        heading_from(ls, i) == Some(trim(ls[j].skip("# "@.len() as int))),
    decreases j - i,
{
    if i < j {
        lemma_heading_first(ls, i + 1, j);
    }
}

proof fn lemma_heading_none(ls: Seq<Seq<char>>, i: int)
    requires
        0 <= i <= ls.len(),
        forall|x: int| i <= x < ls.len() ==> !has_prefix(#[trigger] ls[x], "# "@),
    ensures
        heading_from(ls, i) is None,
    decreases ls.len() - i,
{
    if i < ls.len() {
        lemma_heading_none(ls, i + 1);
    }
}

/// A doc's title is its first line that starts with `# `, without the `# `
/// and trimmed; no later line changes it.
pub proof fn law_title_is_first_heading(path: Seq<char>, base: Seq<char>, text: Seq<char>, j: int)
    requires
        0 <= j < lines(text).len(),
        has_prefix(lines(text)[j], "# "@),
        forall|i: int| 0 <= i < j ==> !has_prefix(#[trigger] lines(text)[i], "# "@),
    ensures
        describe(path, base, Some(text)).title == trim(lines(text)[j].skip("# "@.len() as int)),
{
    lemma_heading_first(lines(text), 0, j);
}

/// A doc whose text has no line that starts with `# ` takes its title from
/// its base name, as a doc read without its text does.
pub proof fn law_title_without_heading(path: Seq<char>, base: Seq<char>, text: Seq<char>)
    requires
        forall|i: int| 0 <= i < lines(text).len() ==> !has_prefix(#[trigger] lines(text)[i], "# "@),
    ensures
        describe(path, base, Some(text)).title == describe(path, base, None).title,
{
    lemma_heading_none(lines(text), 0);
}

/// `c` is the index of the first `:` of line `l`.
pub open spec fn first_colon(l: Seq<char>, c: int) -> bool {
    0 <= c < l.len() && l[c] == ':' && forall|x: int| 0 <= x < c ==> l[x] != ':'
}

/// Line `l` sets the status: the text before its first `:`, trimmed, is
/// `Status` in any ASCII case.
pub open spec fn sets_status(l: Seq<char>) -> bool {
    exists|c: int| first_colon(l, c) && eq_ignore_ascii_case(trim(l.take(c)), "Status"@)
}

proof fn lemma_first_colon(l: Seq<char>, c: int)
    requires
        first_colon(l, c),
    ensures
        colon_at(l) == c,
{
    lemma_find_char(l, ':', 0);
}

proof fn lemma_field_line_sets_status(l: Seq<char>)
    ensures
        is_field_line(l, "Status"@) <==> sets_status(l),
{
    lemma_find_char(l, ':', 0);
    if sets_status(l) {
        let c = choose|c: int| first_colon(l, c) && eq_ignore_ascii_case(trim(l.take(c)), "Status"@);
        lemma_first_colon(l, c);
    }
    if is_field_line(l, "Status"@) {
        assert(first_colon(l, colon_at(l)));
    }
}

proof fn lemma_status_first(ls: Seq<Seq<char>>, i: int, j: int)
    requires
        0 <= i <= j < ls.len(),
        sets_status(ls[j]),
        forall|x: int| i <= x < j ==> !sets_status(#[trigger] ls[x]),
    ensures
        field_from(ls, "Status"@, i) == Some(field_value(ls[j])),
    decreases j - i,
{
    lemma_field_line_sets_status(ls[i]);
    if i < j {
        lemma_status_first(ls, i + 1, j);
    }
}

/// A doc's status is the value after the first `:` of its first line that
/// sets the status, trimmed; no later line changes it.
pub proof fn law_status_is_first_field(
    path: Seq<char>,
    base: Seq<char>,
    text: Seq<char>,
    j: int,
    c: int,
)
    requires
        0 <= j < lines(text).len(),
        first_colon(lines(text)[j], c),
        eq_ignore_ascii_case(trim(lines(text)[j].take(c)), "Status"@),
        forall|i: int| 0 <= i < j ==> !sets_status(#[trigger] lines(text)[i]),
    ensures
        describe(path, base, Some(text)).status == trim(lines(text)[j].skip(c + 1)),
{
    let l = lines(text)[j];
    assert(sets_status(l));
    lemma_first_colon(l, c);
    lemma_status_first(lines(text), 0, j);
}

/// Line `l` is prose: trimmed, it is not empty, does not start with `#` and
/// holds no `:`.
pub open spec fn is_prose(l: Seq<char>) -> bool {
    trim(l).len() > 0 && trim(l)[0] != '#' && !trim(l).contains(':')
}

proof fn lemma_summary_first(ls: Seq<Seq<char>>, i: int, j: int)
    requires
        0 <= i <= j < ls.len(),
        is_prose(ls[j]),
        forall|x: int| i <= x < j ==> !is_prose(#[trigger] ls[x]),
    ensures
        summary_from(ls, i) == Some(trim(ls[j])),
    decreases j - i,
{
    if i < j {
        lemma_summary_first(ls, i + 1, j);
    }
}

proof fn lemma_summary_none(ls: Seq<Seq<char>>, i: int)
    requires
        0 <= i <= ls.len(),
        forall|x: int| i <= x < ls.len() ==> !is_prose(#[trigger] ls[x]),
    ensures
        summary_from(ls, i) is None,
    decreases ls.len() - i,
{
    if i < ls.len() {
        lemma_summary_none(ls, i + 1);
    }
}

/// A doc's summary is its first prose line, trimmed; a text without prose
/// gives no summary.
pub proof fn law_summary_is_first_prose(path: Seq<char>, base: Seq<char>, text: Seq<char>, j: int)
    requires
        0 <= j <= lines(text).len(),
        j < lines(text).len() ==> is_prose(lines(text)[j]),
        forall|i: int| 0 <= i < j ==> !is_prose(#[trigger] lines(text)[i]),
    ensures
        j < lines(text).len() ==> describe(path, base, Some(text)).summary == Some(
            trim(lines(text)[j]),
        ),
        j == lines(text).len() ==> describe(path, base, Some(text)).summary is None,
{
    if j < lines(text).len() {
        lemma_summary_first(lines(text), 0, j);
    } else {
        lemma_summary_none(lines(text), 0);
    }
}

/// The directories on a doc's path give its type: a `decisions` directory
/// makes it a decision, then `ADRs` an ADR, then `RFCs` or `rfcs` an RFC,
/// then `guides` a guide; any other doc is a plain doc.
pub proof fn law_doc_type_from_directories(path: Seq<char>)
    ensures
        has_infix(path, "/decisions/"@) ==> doc_type_of(path) == "decision"@,
        !has_infix(path, "/decisions/"@) && has_infix(path, "/ADRs/"@) ==> doc_type_of(path)
            == "adr"@,
        !has_infix(path, "/decisions/"@) && !has_infix(path, "/ADRs/"@) && (has_infix(
            path,
            "/RFCs/"@,
        ) || has_infix(path, "/rfcs/"@)) ==> doc_type_of(path) == "rfc"@,
        !has_infix(path, "/decisions/"@) && !has_infix(path, "/ADRs/"@) && !has_infix(
            path,
            "/RFCs/"@,
        ) && !has_infix(path, "/rfcs/"@) && has_infix(path, "/guides/"@) ==> doc_type_of(path)
            == "guide"@,
        !has_infix(path, "/decisions/"@) && !has_infix(path, "/ADRs/"@) && !has_infix(
            path,
            "/RFCs/"@,
        ) && !has_infix(path, "/rfcs/"@) && !has_infix(path, "/guides/"@) ==> doc_type_of(path)
            == "doc"@,
{
}

/// A doc below `docs/front-guild/`, `docs/back-guild/` or `docs/qa-guild/`
/// belongs to that guild; any other doc to none.
pub proof fn law_guild_of_directory(path: Seq<char>)
    ensures
        has_prefix(path, "docs/front-guild/"@) ==> guild_of(path) == Some("front"@),
        has_prefix(path, "docs/back-guild/"@) ==> guild_of(path) == Some("back"@),
        has_prefix(path, "docs/qa-guild/"@) ==> guild_of(path) == Some("qa"@),
        !has_prefix(path, "docs/front-guild/"@) && !has_prefix(path, "docs/back-guild/"@)
            && !has_prefix(path, "docs/qa-guild/"@) ==> guild_of(path) is None,
{
    reveal_strlit("docs/");
    reveal_strlit("-guild/");
    reveal_strlit("front");
    reveal_strlit("back");
    reveal_strlit("qa");
    reveal_strlit("docs/front-guild/");
    reveal_strlit("docs/back-guild/");
    reveal_strlit("docs/qa-guild/");
    assert(guild_dir("front"@) =~= "docs/front-guild/"@);
    assert(guild_dir("back"@) =~= "docs/back-guild/"@);
    assert(guild_dir("qa"@) =~= "docs/qa-guild/"@);
    if has_prefix(path, "docs/back-guild/"@) {
        assert(path.subrange(0, "docs/back-guild/"@.len() as int)[5] == path[5]);
        assert(!has_prefix(path, "docs/front-guild/"@)) by {
            if has_prefix(path, "docs/front-guild/"@) {
                assert(path.subrange(0, "docs/front-guild/"@.len() as int)[5] == path[5]);
            }
        }
    }
    if has_prefix(path, "docs/qa-guild/"@) {
        assert(path.subrange(0, "docs/qa-guild/"@.len() as int)[5] == path[5]);
        assert(!has_prefix(path, "docs/front-guild/"@)) by {
            if has_prefix(path, "docs/front-guild/"@) {
                assert(path.subrange(0, "docs/front-guild/"@.len() as int)[5] == path[5]);
            }
        }
        assert(!has_prefix(path, "docs/back-guild/"@)) by {
            if has_prefix(path, "docs/back-guild/"@) {
                assert(path.subrange(0, "docs/back-guild/"@.len() as int)[5] == path[5]);
            }
        }
    }
}

/// A title taken from a base name has no dashes, unless it is the base
/// name itself.
pub proof fn law_title_has_no_dashes(base: Seq<char>)
    ensures
        title_of(base) != base ==> !title_of(base).contains('-'),
{
}

} // verus!
