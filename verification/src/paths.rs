//! Paths as strings: joining as `PathBuf::join` does on Unix, `~` expansion,
//! the location of the configuration file, and the two path queries that
//! are left to the standard library.

use vstd::prelude::*;
use crate::doc::opt_view;
use crate::text::{append, chars_of, copy_range, has_prefix, starts_with, str_eq, string_of};

verus! {

/// The remainder of `file` once the leading components `root` are taken off,
/// as `Path::strip_prefix` computes it; `None` when `root` is not a prefix
/// of `file` component by component.
pub uninterp spec fn path_without_prefix(file: Seq<char>, root: Seq<char>) -> Option<Seq<char>>;

/// `Path::strip_prefix`, the remainder taken as a string. The result depends
/// on the two paths alone; what it is for given paths is left to the name
/// `path_without_prefix`.
#[verifier::external_body]
pub(crate) fn strip_path_prefix(file: &str, root: &str) -> (r: Option<String>)
    ensures
        opt_view(r) == path_without_prefix(file@, root@),
{
    match std::path::Path::new(file).strip_prefix(root) {
        Ok(rest) => Some(rest.to_string_lossy().into_owned()),
        Err(_) => None,
    }
}

/// The file name of `path` without its extension, as `Path::file_stem`
/// computes it; `None` when the path has no file name.
pub uninterp spec fn path_file_stem(path: Seq<char>) -> Option<Seq<char>>;

/// `Path::file_stem`, taken as a string. The result depends on the path
/// alone; what it is for a given path is left to the name `path_file_stem`.
#[verifier::external_body]
pub(crate) fn file_stem(path: &str) -> (r: Option<String>)
    ensures
        opt_view(r) == path_file_stem(path@),
{
    match std::path::Path::new(path).file_stem() {
        Some(stem) => Some(stem.to_string_lossy().into_owned()),
        None => None,
    }
}

/// `base` joined with `rest` as `PathBuf::join` does on Unix: an absolute
/// `rest` replaces `base`; otherwise a `/` separates them unless `base` is
/// empty or already ends with one.
pub open spec fn join_path(base: Seq<char>, rest: Seq<char>) -> Seq<char> {
    if rest.len() > 0 && rest[0] == '/' {
        rest
    } else if base.len() == 0 || base.last() == '/' {
        base + rest
    } else {
        base + seq!['/'] + rest
    }
}

/// Joins two paths as `join_path` says.
pub fn join(base: &str, rest: &str) -> (r: String)
    ensures
        r@ == join_path(base@, rest@),
{
    let b = chars_of(base);
    let t = chars_of(rest);
    if t.len() > 0 && t[0] == '/' {
        return string_of(&t);
    }
    let mut out = copy_range(&b, 0, b.len());
    assert(b@.subrange(0, b@.len() as int) =~= b@);
    if !(b.len() == 0 || b[b.len() - 1] == '/') {
        out.push('/');
    }
    append(&mut out, &t);
    string_of(&out)
}

/// The home directory: the value of `HOME` when it is set, else `.`.
pub open spec fn home_of(home_var: Option<Seq<char>>) -> Seq<char> {
    match home_var {
        Some(h) => h,
        None => "."@,
    }
}

/// The home directory from the value of the `HOME` variable, if set.
pub fn home_dir(home_var: Option<String>) -> (r: String)
    ensures
        r@ == home_of(opt_view(home_var)),
{
    match home_var {
        Some(h) => h,
        None => string_of(&chars_of(".")),
    }
}

/// Where the configuration lives below home directory `home`.
pub open spec fn config_path(home: Seq<char>) -> Seq<char> {
    join_path(join_path(join_path(home, ".config"@), "pxdocs"@), "config.json"@)
}

/// The configuration file, `.config/pxdocs/config.json` below `home`.
pub fn config_file(home: &str) -> (r: String)
    ensures
        r@ == config_path(home@),
{
    let a = join(home, ".config");
    let b = join(&a, "pxdocs");
    join(&b, "config.json")
}

/// A path the user typed with a leading `~` read as the home directory.
pub open spec fn expanded(value: Seq<char>, home: Seq<char>) -> Seq<char> {
    if value == "~"@ {
        home
    } else if has_prefix(value, "~/"@) {
        join_path(home, value.skip("~/"@.len() as int))
    } else {
        value
    }
}

/// Expands `~` and `~/...` against home directory `home`; any other path
/// is kept as it is.
pub fn expand_path(value: &str, home: &str) -> (r: String)
    ensures
        r@ == expanded(value@, home@),
{
    let v = chars_of(value);
    let prefix = chars_of("~/");
    if str_eq(value, "~") {
        return string_of(&chars_of(home));
    }
    if starts_with(&v, &prefix) {
        let rest = string_of(&copy_range(&v, prefix.len(), v.len()));
        return join(home, &rest);
    }
    string_of(&v)
}

/// The extension of `path`, as `Path::extension` computes it; `None` when
/// its file name has no extension.
pub uninterp spec fn path_extension(path: Seq<char>) -> Option<Seq<char>>;

/// `Path::extension`, taken as a string. The result depends on the path
/// alone; what it is for a given path is left to the name `path_extension`.
#[verifier::external_body]
pub(crate) fn extension(path: &str) -> (r: Option<String>)
    ensures
        opt_view(r) == path_extension(path@),
{
    match std::path::Path::new(path).extension() {
        Some(ext) => Some(ext.to_string_lossy().into_owned()),
        None => None,
    }
}

/// Whether `path` names a Markdown file: its extension is `md`.
pub fn is_markdown(path: &str) -> (r: bool)
    ensures
        r == (path_extension(path@) == Some("md"@)),
{
    match extension(path) {
        Some(ext) => str_eq(ext.as_str(), "md"),
        None => false,
    }
}

/// A path that does not start with `~` is used as it is.
pub proof fn law_expand_plain(value: Seq<char>, home: Seq<char>)
    requires
        value.len() == 0 || value[0] != '~',
    ensures
        expanded(value, home) == value,
{
    reveal_strlit("~");
    reveal_strlit("~/");
    if value.len() > 0 {
        assert(value != "~"@);
        assert(!has_prefix(value, "~/"@)) by {
            if has_prefix(value, "~/"@) {
                assert(value.subrange(0, 2)[0] == value[0]);
            }
        }
    } else {
        assert(value != "~"@);
    }
}

} // verus!
