//! The persisted configuration: where the local checkout is, which GitHub
//! repository to fall back to, and when each checkout was last fetched.

use vstd::prelude::*;
use crate::doc::opt_view;
use crate::text::{chars_of, str_eq, string_of};

verus! {

/// The repository read through `gh` when no other one is configured.
pub open spec fn default_remote() -> Seq<char> {
    "px-center/px-docs"@
}

/// The repository read through `gh` when no other one is configured.
pub fn default_remote_name() -> (r: String)
    ensures
        r@ == default_remote(),
{
    string_of(&chars_of("px-center/px-docs"))
}

/// How long after a fetch the next one is due, in milliseconds (ten minutes).
pub const FETCH_TTL_MS: u128 = 600000u128;

/// When one checkout was last fetched.
#[derive(Debug)]
pub struct FetchMark {
    pub path: String,
    /// Milliseconds since the Unix epoch.
    pub at: u128,
}

/// The configuration file's content.
#[derive(Debug)]
pub struct Config {
    pub docs_path: Option<String>,
    pub remote: Option<String>,
    /// When each checkout was last fetched. Kept free of two marks for one
    /// path (`marks_well_formed`); were there two, the first would count.
    pub last_fetch_at_by_path: Option<Vec<FetchMark>>,
}

/// The values of a list of fetch marks.
pub open spec fn marks_view(ms: Seq<FetchMark>) -> Seq<(Seq<char>, u128)> {
    ms.map_values(|m: FetchMark| (m.path@, m.at))
}

/// No path has two marks.
pub open spec fn marks_unique(ms: Seq<(Seq<char>, u128)>) -> bool {
    forall|i: int, j: int| 0 <= i < j < ms.len() ==> (#[trigger] ms[i]).0 != (#[trigger] ms[j]).0
}

/// The invariant of the fetch marks: no path has two.
pub open spec fn marks_well_formed(c: ConfigView) -> bool {
    match c.marks {
        Some(ms) => marks_unique(ms),
        None => true,
    }
}

/// The value of a `Config`.
pub struct ConfigView {
    pub docs_path: Option<Seq<char>>,
    pub remote: Option<Seq<char>>,
    pub marks: Option<Seq<(Seq<char>, u128)>>,
}

impl View for Config {
    type V = ConfigView;

    open spec fn view(&self) -> ConfigView {
        ConfigView {
            docs_path: opt_view(self.docs_path),
            remote: opt_view(self.remote),
            marks: match self.last_fetch_at_by_path {
                Some(ms) => Some(marks_view(ms@)),
                None => None,
            },
        }
    }
}

impl Default for Config {
    fn default() -> (r: Config)
        ensures
            r@ == (ConfigView { docs_path: None, remote: None, marks: None }),
    {
        Config { docs_path: None, remote: None, last_fetch_at_by_path: None }
    }
}

/// When checkout `p` was last fetched, by the first mark for it.
pub open spec fn last_fetch(ms: Seq<(Seq<char>, u128)>, p: Seq<char>) -> Option<u128>
    decreases ms.len(),
{
    if ms.len() == 0 {
        None
    } else if ms[0].0 == p {
        Some(ms[0].1)
    } else {
        last_fetch(ms.drop_first(), p)
    }
}

/// The configured checkout.
pub fn docs_path(config: &Config) -> (r: Option<String>)
    ensures
        opt_view(r) == config@.docs_path,
{
    match &config.docs_path {
        Some(p) => Some(p.clone()),
        None => None,
    }
}

/// The repository to fall back to.
pub open spec fn remote_of(c: ConfigView) -> Seq<char> {
    match c.remote {
        Some(r) => r,
        None => default_remote(),
    }
}

/// The configured repository, or the default one.
pub fn remote(config: &Config) -> (r: String)
    ensures
        r@ == remote_of(config@),
{
    match &config.remote {
        Some(r) => r.clone(),
        None => default_remote_name(),
    }
}

/// Records checkout `path` as the one to read, with the default repository
/// as fallback; the fetch marks stay as they are.
pub fn save_docs_path(config: &mut Config, path: &str)
    ensures
        final(config)@ == (ConfigView {
            docs_path: Some(path@),
            remote: Some(default_remote()),
            marks: old(config)@.marks,
        }),
{
    config.docs_path = Some(string_of(&chars_of(path)));
    config.remote = Some(default_remote_name());
}

/// A fetch of checkout `p` is due at time `now`: it was never fetched, or
/// more than `FETCH_TTL_MS` passed since (a clock that went back counts as
/// no time passed).
pub open spec fn fetch_due(c: ConfigView, p: Seq<char>, now: u128) -> bool {
    match c.marks {
        None => true,
        Some(ms) => match last_fetch(ms, p) {
            None => true,
            Some(t) => (if now > t {
                now - t
            } else {
                0
            }) > FETCH_TTL_MS,
        },
    }
}

fn last_fetch_exec(ms: &Vec<FetchMark>, p: &str) -> (r: Option<u128>)
    ensures
        r == last_fetch(marks_view(ms@), p@),
{
    let ghost v = marks_view(ms@);
    let mut i: usize = 0;
    assert(v.skip(0) =~= v);
    while i < ms.len()
        invariant
            i <= ms@.len(),
            v == marks_view(ms@),
            last_fetch(v, p@) == last_fetch(v.skip(i as int), p@),
        decreases ms@.len() - i,
    {
        assert(v.skip(i as int).drop_first() =~= v.skip(i + 1));
        if str_eq(ms[i].path.as_str(), p) {
            return Some(ms[i].at);
        }
        i = i + 1;
    }
    None
}

/// Whether a fetch of checkout `path` is due at time `now` (milliseconds
/// since the Unix epoch).
pub fn should_fetch(config: &Config, path: &str, now: u128) -> (r: bool)
    ensures
        r == fetch_due(config@, path@, now),
{
    match &config.last_fetch_at_by_path {
        None => true,
        Some(ms) => match last_fetch_exec(ms, path) {
            None => true,
            Some(last) => now.saturating_sub(last) > FETCH_TTL_MS,
        },
    }
}

/// The marks of `ms` for paths other than `p`, in order.
pub open spec fn without_path(ms: Seq<(Seq<char>, u128)>, p: Seq<char>) -> Seq<(Seq<char>, u128)>
    decreases ms.len(),
{
    if ms.len() == 0 {
        seq![]
    } else {
        let rest = without_path(ms.drop_last(), p);
        if ms.last().0 == p {
            rest
        } else {
            rest.push(ms.last())
        }
    }
}

/// The marks after a fetch of `p` at time `t`.
pub open spec fn marked(ms: Option<Seq<(Seq<char>, u128)>>, p: Seq<char>, t: u128) -> Seq<
    (Seq<char>, u128),
> {
    let old_marks = match ms {
        Some(m) => m,
        None => seq![],
    };
    without_path(old_marks, p).push((p, t))
}

/// Records that checkout `path` was fetched at time `now`, replacing what
/// was recorded for it before.
pub fn mark_docs_fetched(config: &mut Config, path: &str, now: u128)
    ensures
        final(config)@ == (ConfigView {
            docs_path: old(config)@.docs_path,
            remote: old(config)@.remote,
            marks: Some(marked(old(config)@.marks, path@, now)),
        }),
        marks_well_formed(old(config)@) ==> marks_well_formed(final(config)@),
{
    let mut kept: Vec<FetchMark> = Vec::new();
    let ghost old_marks = match old(config)@.marks {
        Some(m) => m,
        None => Seq::<(Seq<char>, u128)>::empty(),
    };
    match &config.last_fetch_at_by_path {
        Some(ms) => {
            let mut i: usize = 0;
            while i < ms.len()
                invariant
                    i <= ms@.len(),
                    old_marks == marks_view(ms@),
                    marks_view(kept@) == without_path(old_marks.take(i as int), path@),
                decreases ms@.len() - i,
            {
                assert(old_marks.take(i + 1).drop_last() =~= old_marks.take(i as int));
                if !str_eq(ms[i].path.as_str(), path) {
                    let ghost before = marks_view(kept@);
                    kept.push(FetchMark { path: ms[i].path.clone(), at: ms[i].at });
                    assert(marks_view(kept@) =~= before.push(old_marks[i as int]));
                }
                i = i + 1;
            }
            assert(old_marks.take(ms@.len() as int) =~= old_marks);
        },
        None => {
            assert(marks_view(kept@) =~= without_path(old_marks, path@));
        },
    }
    let ghost before = marks_view(kept@);
    kept.push(FetchMark { path: string_of(&chars_of(path)), at: now });
    assert(marks_view(kept@) =~= before.push((path@, now)));
    config.last_fetch_at_by_path = Some(kept);
    proof {
        if marks_well_formed(old(config)@) {
            law_mark_keeps_marks_unique(old(config)@.marks, path@, now);
        }
    }
}

// ---------------------------------------------------------------------------
// Laws
// ---------------------------------------------------------------------------

pub proof fn lemma_without_path(ms: Seq<(Seq<char>, u128)>, p: Seq<char>, q: Seq<char>)
    ensures
        last_fetch(without_path(ms, p), p) is None,
        q != p ==> last_fetch(without_path(ms, p), q) == last_fetch(ms, q),
    decreases ms.len(),
{
    if ms.len() > 0 {
        let rest = without_path(ms.drop_first(), p);
        lemma_without_path(ms.drop_first(), p, q);
        lemma_without_path_front(ms, p);
        assert((seq![ms[0]] + rest).drop_first() =~= rest);
        assert((seq![ms[0]] + rest)[0] == ms[0]);
    }
}

/// `without_path` read from the front.
pub proof fn lemma_without_path_front(ms: Seq<(Seq<char>, u128)>, p: Seq<char>)
    requires
        ms.len() > 0,
    ensures
        without_path(ms, p) == if ms[0].0 == p {
            without_path(ms.drop_first(), p)
        } else {
            seq![ms[0]] + without_path(ms.drop_first(), p)
        },
    decreases ms.len(),
{
    if ms.len() > 1 {
        lemma_without_path_front(ms.drop_last(), p);
        assert(ms.drop_last().drop_first() =~= ms.drop_first().drop_last());
        assert(ms.drop_last()[0] == ms[0]);
        if ms[0].0 != p {
            let a = without_path(ms.drop_first().drop_last(), p);
            if ms.last().0 != p {
                assert((seq![ms[0]] + a).push(ms.last()) =~= seq![ms[0]] + a.push(ms.last()));
            }
        }
    } else {
        assert(ms.drop_first() =~= Seq::<(Seq<char>, u128)>::empty());
        assert(ms.drop_last() =~= Seq::<(Seq<char>, u128)>::empty());
        if ms[0].0 != p {
            assert(seq![ms[0]] + Seq::<(Seq<char>, u128)>::empty() =~= seq![ms[0]]);
        }
    }
}

pub proof fn lemma_last_fetch_push(ms: Seq<(Seq<char>, u128)>, m: (Seq<char>, u128), q: Seq<char>)
    requires
        last_fetch(ms, q) is None,
    ensures
        last_fetch(ms.push(m), q) == if m.0 == q {
            Some(m.1)
        } else {
            None::<u128>
        },
    decreases ms.len(),
{
    if ms.len() > 0 {
        assert(ms.push(m).drop_first() =~= ms.drop_first().push(m));
        lemma_last_fetch_push(ms.drop_first(), m, q);
    } else {
        assert(ms.push(m).drop_first() =~= ms);
    }
}

pub proof fn lemma_last_fetch_push_found(ms: Seq<(Seq<char>, u128)>, m: (Seq<char>, u128), q: Seq<char>)
    requires
        last_fetch(ms, q) is Some,
    ensures
        last_fetch(ms.push(m), q) == last_fetch(ms, q),
    decreases ms.len(),
{
    if ms.len() > 0 && ms[0].0 != q {
        assert(ms.push(m).drop_first() =~= ms.drop_first().push(m));
        lemma_last_fetch_push_found(ms.drop_first(), m, q);
    }
}

/// After a fetch of `p` at time `t` is recorded, `p`'s last fetch is `t`
/// and every other checkout's last fetch is what it was.
pub proof fn law_mark_then_read(c: ConfigView, p: Seq<char>, t: u128, q: Seq<char>)
    ensures
        last_fetch(marked(c.marks, p, t), p) == Some(t),
        q != p ==> last_fetch(marked(c.marks, p, t), q) == match c.marks {
            Some(ms) => last_fetch(ms, q),
            None => None,
        },
{
    let old_marks = match c.marks {
        Some(m) => m,
        None => seq![],
    };
    let w = without_path(old_marks, p);
    lemma_without_path(old_marks, p, q);
    lemma_last_fetch_push(w, (p, t), p);
    if q != p {
        if last_fetch(w, q) is Some {
            lemma_last_fetch_push_found(w, (p, t), q);
        } else {
            lemma_last_fetch_push(w, (p, t), q);
        }
    }
}

/// Fetches happen at most once every ten minutes: right after a fetch of a
/// checkout at time `t` is recorded, the next one is due exactly when more
/// than `FETCH_TTL_MS` passed since `t`.
pub proof fn law_fetch_at_most_every_ttl(c: ConfigView, p: Seq<char>, t: u128, now: u128)
    ensures
        fetch_due(
            ConfigView { marks: Some(marked(c.marks, p, t)), ..c },
            p,
            now,
        ) == (now > t && now - t > FETCH_TTL_MS),
{
    law_mark_then_read(c, p, t, p);
}

/// A checkout never fetched is due for a fetch.
pub proof fn law_never_fetched_is_due(c: ConfigView, p: Seq<char>, now: u128)
    requires
        c.marks matches Some(ms) ==> last_fetch(ms, p) is None,
    ensures
        fetch_due(c, p, now),
{
}

/// After the checkout is saved, it is the configured one and the default
/// repository is the fallback.
pub proof fn law_save_then_read(c: ConfigView, p: Seq<char>)
    ensures
        ({
            let saved = ConfigView { docs_path: Some(p), remote: Some(default_remote()), marks: c.marks };
            saved.docs_path == Some(p) && remote_of(saved) == default_remote()
        }),
{
}

/// The marks kept for other paths are marks of `ms` for paths other than `p`,
/// and keep no two marks of one path when `ms` has none.
pub proof fn lemma_without_path_unique(ms: Seq<(Seq<char>, u128)>, p: Seq<char>)
    ensures
        forall|k: int|
            0 <= k < without_path(ms, p).len() ==> ms.contains(#[trigger] without_path(ms, p)[k])
                && without_path(ms, p)[k].0 != p,
        marks_unique(ms) ==> marks_unique(without_path(ms, p)),
    decreases ms.len(),
{
    if ms.len() > 0 {
        let front = ms.drop_last();
        lemma_without_path_unique(front, p);
        let rest = without_path(front, p);
        let w = without_path(ms, p);
        assert forall|k: int| 0 <= k < w.len() implies ms.contains(#[trigger] w[k]) && w[k].0 != p by {
            if k < rest.len() {
                assert(w[k] == rest[k]);
                let i = choose|i: int| 0 <= i < front.len() && front[i] == rest[k];
                assert(ms[i] == front[i]);
            } else {
                assert(ms[ms.len() - 1] == ms.last());
            }
        }
        if marks_unique(ms) {
            assert(marks_unique(front)) by {
                assert forall|i: int, j: int| 0 <= i < j < front.len() implies (#[trigger] front[i]).0
                    != (#[trigger] front[j]).0 by {
                    assert(front[i] == ms[i] && front[j] == ms[j]);
                }
            }
            assert forall|i: int, j: int| 0 <= i < j < w.len() implies (#[trigger] w[i]).0 != (
            #[trigger] w[j]).0 by {
                if j >= rest.len() {
                    assert(w[i] == rest[i]);
                    let a = choose|a: int| 0 <= a < front.len() && front[a] == rest[i];
                    assert(ms[a] == front[a]);
                    assert(w[j] == ms[ms.len() - 1]);
                } else {
                    assert(w[i] == rest[i] && w[j] == rest[j]);
                }
            }
        }
    }
}

/// Recording a fetch keeps the marks free of two marks for one path.
pub proof fn law_mark_keeps_marks_unique(ms: Option<Seq<(Seq<char>, u128)>>, p: Seq<char>, t: u128)
    requires
        ms matches Some(m) ==> marks_unique(m),
    ensures
        marks_unique(marked(ms, p, t)),
{
    let old_marks = match ms {
        Some(m) => m,
        None => seq![],
    };
    lemma_without_path_unique(old_marks, p);
    let w = without_path(old_marks, p);
    let r = w.push((p, t));
    assert forall|i: int, j: int| 0 <= i < j < r.len() implies (#[trigger] r[i]).0 != (
    #[trigger] r[j]).0 by {
        assert(r[i] == w[i]);
        if j == w.len() {
            assert(w[i].0 != p);
        } else {
            assert(r[j] == w[j]);
        }
    }
}

} // verus!
