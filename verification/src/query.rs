//! Choosing docs: filtering by type, guild and status, searching by terms,
//! and finding the docs a selector names.

use vstd::prelude::*;
use crate::doc::{opt_str_view, Doc, DocView};
use crate::rank::{
    chars_before, is_ranking, key_view, key_views, law_ranking_unique, lemma_chars_before_strict_total,
    lemma_ranking_covers, rank_order, ranks_before, SortKey,
};
use crate::text::{
    ascii_lowercase, is_ascii_char, is_ascii_text, is_white, lemma_word_end, occurs_at, word_end,
    words_from,
    append, chars_of, contains, has_infix, lowercase_of, split_words, str_eq, string_of,
    to_lowercase, views, words,
};

verus! {

/// The values of a list of docs.
pub open spec fn doc_views(docs: Seq<Doc>) -> Seq<DocView> {
    docs.map_values(|d: Doc| d@)
}

// ---------------------------------------------------------------------------
// Filtering
// ---------------------------------------------------------------------------

/// A doc passes the filters: its type is `doc_type`, its guild is `guild`,
/// and its status contains `status` ignoring case; an absent filter passes
/// every doc.
pub open spec fn keeps(
    d: DocView,
    doc_type: Option<Seq<char>>,
    guild: Option<Seq<char>>,
    status: Option<Seq<char>>,
) -> bool {
    &&& (match doc_type {
        Some(t) => d.doc_type == t,
        None => true,
    })
    &&& (match guild {
        Some(g) => d.guild == Some(g),
        None => true,
    })
    &&& (match status {
        Some(s) => has_infix(lowercase_of(d.status), lowercase_of(s)),
        None => true,
    })
}

/// The docs that pass the filters, in their order.
pub open spec fn filtered(
    docs: Seq<DocView>,
    doc_type: Option<Seq<char>>,
    guild: Option<Seq<char>>,
    status: Option<Seq<char>>,
) -> Seq<DocView>
    decreases docs.len(),
{
    if docs.len() == 0 {
        seq![]
    } else {
        let rest = filtered(docs.drop_last(), doc_type, guild, status);
        if keeps(docs.last(), doc_type, guild, status) {
            rest.push(docs.last())
        } else {
            rest
        }
    }
}

fn keeps_exec(d: &Doc, doc_type: Option<&str>, guild: Option<&str>, status: Option<&str>) -> (r:
    bool)
    ensures
        r == keeps(d@, opt_str_view(doc_type), opt_str_view(guild), opt_str_view(status)),
{
    let type_ok = match doc_type {
        Some(t) => str_eq(d.doc_type.as_str(), t),
        None => true,
    };
    let guild_ok = match guild {
        Some(g) => match &d.guild {
            Some(dg) => str_eq(dg.as_str(), g),
            None => false,
        },
        None => true,
    };
    let status_ok = match status {
        Some(s) => {
            let have = chars_of(&to_lowercase(d.status.as_str()));
            let want = chars_of(&to_lowercase(s));
            contains(&have, &want)
        },
        None => true,
    };
    type_ok && guild_ok && status_ok
}

/// The docs of `docs` whose type is `doc_type`, whose guild is `guild` and
/// whose status contains `status` ignoring case (each filter only when
/// given), in their order.
pub fn filter_docs(
    docs: &[Doc],
    doc_type: Option<&str>,
    guild: Option<&str>,
    status: Option<&str>,
) -> (r: Vec<Doc>)
    ensures
        doc_views(r@) == filtered(
            doc_views(docs@),
            opt_str_view(doc_type),
            opt_str_view(guild),
            opt_str_view(status),
        ),
{
    let ghost all = doc_views(docs@);
    let ghost (t, g, s) = (opt_str_view(doc_type), opt_str_view(guild), opt_str_view(status));
    let mut r: Vec<Doc> = Vec::new();
    let mut i: usize = 0;
    while i < docs.len()
        invariant
            i <= docs@.len(),
            all == doc_views(docs@),
            t == opt_str_view(doc_type),
            g == opt_str_view(guild),
            s == opt_str_view(status),
            doc_views(r@) == filtered(all.take(i as int), t, g, s),
        decreases docs@.len() - i,
    {
        assert(all.take(i + 1).drop_last() =~= all.take(i as int));
        if keeps_exec(&docs[i], doc_type, guild, status) {
            let d = docs[i].duplicate();
            r.push(d);
            assert(doc_views(r@) =~= filtered(all.take(i as int), t, g, s).push(all[i as int]));
        }
        i = i + 1;
    }
    assert(all.take(docs@.len() as int) =~= all);
    r
}

// ---------------------------------------------------------------------------
// Searching
// ---------------------------------------------------------------------------

/// The text a search looks in: title, path, status and summary, separated
/// by spaces and lowercased.
pub open spec fn haystack(d: DocView) -> Seq<char> {
    lowercase_of(
        d.title + " "@ + d.path + " "@ + d.status + " "@ + match d.summary {
            Some(s) => s,
            None => Seq::<char>::empty(),
        },
    )
}

/// The lowercased whitespace-separated terms of a query.
pub open spec fn query_terms(query: Seq<char>) -> Seq<Seq<char>> {
    lowered(words(query))
}

/// Each text of `ws`, lowercased.
pub open spec fn lowered(ws: Seq<Seq<char>>) -> Seq<Seq<char>> {
    ws.map_values(|w: Seq<char>| lowercase_of(w))
}

/// How many of `terms` (counted with repetition) occur in `h`.
pub open spec fn score(h: Seq<char>, terms: Seq<Seq<char>>) -> nat
    decreases terms.len(),
{
    if terms.len() == 0 {
        0
    } else {
        score(h, terms.drop_last()) + if has_infix(h, terms.last()) {
            1nat
        } else {
            0nat
        }
    }
}

/// The docs with a positive score, each with its score, in their order.
pub open spec fn candidates(docs: Seq<DocView>, terms: Seq<Seq<char>>) -> Seq<(int, DocView)>
    decreases docs.len(),
{
    if docs.len() == 0 {
        seq![]
    } else {
        let rest = candidates(docs.drop_last(), terms);
        let s = score(haystack(docs.last()), terms);
        if s > 0 {
            rest.push((s as int, docs.last()))
        } else {
            rest
        }
    }
}

/// The ranking keys of search candidates: the score, then the path.
pub open spec fn search_keys(c: Seq<(int, DocView)>) -> Seq<(int, Seq<Seq<char>>)> {
    c.map_values(|p: (int, DocView)| (p.0, seq![p.1.path]))
}

/// `r` lists the candidates `c` in ranking order `o`.
pub open spec fn listed_in_order(r: Seq<DocView>, c: Seq<(int, DocView)>, o: Seq<usize>) -> bool {
    &&& r.len() == o.len()
    &&& forall|k: int| 0 <= k < r.len() ==> r[k] == #[trigger] c[o[k] as int].1
}

/// The search result for `query` over `docs`: the docs in which at least
/// one query term occurs, best score first and, among equal scores, by path.
pub open spec fn is_search_result(r: Seq<DocView>, docs: Seq<DocView>, query: Seq<char>) -> bool {
    let c = candidates(docs, query_terms(query));
    exists|o: Seq<usize>| is_ranking(search_keys(c), o) && listed_in_order(r, c, o)
}

fn haystack_exec(d: &Doc) -> (r: Vec<char>)
    ensures
        r@ == haystack(d@),
{
    let sp = chars_of(" ");
    let mut t = chars_of(d.title.as_str());
    append(&mut t, &sp);
    append(&mut t, &chars_of(d.path.as_str()));
    append(&mut t, &sp);
    append(&mut t, &chars_of(d.status.as_str()));
    append(&mut t, &sp);
    match &d.summary {
        Some(s) => append(&mut t, &chars_of(s.as_str())),
        None => {},
    }
    proof {
        let e = match d@.summary {
            Some(s) => s,
            None => Seq::<char>::empty(),
        };
        assert(t@ =~= d@.title + " "@ + d@.path + " "@ + d@.status + " "@ + e);
    }
    chars_of(&to_lowercase(&string_of(&t)))
}

fn score_exec(h: &Vec<char>, terms: &Vec<Vec<char>>) -> (r: usize)
    ensures
        r == score(h@, views(terms@)),
{
    let ghost ts = views(terms@);
    let mut n: usize = 0;
    let mut i: usize = 0;
    while i < terms.len()
        invariant
            i <= terms@.len(),
            ts == views(terms@),
            n == score(h@, ts.take(i as int)),
            n <= i,
        decreases terms@.len() - i,
    {
        assert(ts.take(i + 1).drop_last() =~= ts.take(i as int));
        if contains(h, &terms[i]) {
            n = n + 1;
        }
        i = i + 1;
    }
    assert(ts.take(terms@.len() as int) =~= ts);
    n
}

fn query_terms_exec(query: &str) -> (r: Vec<Vec<char>>)
    ensures
        views(r@) == query_terms(query@),
{
    let ws = split_words(&chars_of(query));
    let ghost w = views(ws@);
    let mut r: Vec<Vec<char>> = Vec::new();
    let mut i: usize = 0;
    assert(lowered(w.take(0)) =~= views(r@));
    while i < ws.len()
        invariant
            i <= ws@.len(),
            w == views(ws@),
            views(r@) == lowered(w.take(i as int)),
        decreases ws@.len() - i,
    {
        let t = chars_of(&to_lowercase(&string_of(&ws[i])));
        let ghost prev = views(r@);
        r.push(t);
        assert(views(r@) =~= prev.push(lowercase_of(w[i as int])));
        assert(lowered(w.take(i + 1)) =~= lowered(w.take(i as int)).push(lowercase_of(w[i as int])));
        i = i + 1;
    }
    assert(w.take(ws@.len() as int) =~= w);
    r
}

/// The docs of `docs` that match `query`: those in which at least one
/// lowercased term of the query occurs in the lowercased title, path, status
/// and summary; ordered by the number of terms that occur (most first),
/// then by path, then by their order in `docs`.
pub fn search_docs(docs: &[Doc], query: &str) -> (r: Vec<Doc>)
    ensures
        is_search_result(doc_views(r@), doc_views(docs@), query@),
{
    let terms = query_terms_exec(query);
    let ghost ts = query_terms(query@);
    let ghost all = doc_views(docs@);
    let mut cands: Vec<Doc> = Vec::new();
    let mut keys: Vec<SortKey> = Vec::new();
    let mut i: usize = 0;
    while i < docs.len()
        invariant
            i <= docs@.len(),
            all == doc_views(docs@),
            views(terms@) == ts,
            cands@.len() == keys@.len() == candidates(all.take(i as int), ts).len(),
            forall|k: int|
                0 <= k < cands@.len() ==> {
                    let c = #[trigger] candidates(all.take(i as int), ts)[k];
                    &&& cands@[k]@ == c.1
                    &&& key_view(keys@[k]) == (c.0, seq![c.1.path])
                },
        decreases docs@.len() - i,
    {
        assert(all.take(i + 1).drop_last() =~= all.take(i as int));
        let h = haystack_exec(&docs[i]);
        let s = score_exec(&h, &terms);
        if s > 0 {
            cands.push(docs[i].duplicate());
            let path = chars_of(docs[i].path.as_str());
            let mut parts: Vec<Vec<char>> = Vec::new();
            parts.push(path);
            assert(views(parts@) =~= seq![all[i as int].path]);
            keys.push(SortKey { score: s, parts });
        }
        i = i + 1;
    }
    assert(all.take(docs@.len() as int) =~= all);
    let ghost c = candidates(all, ts);
    assert(key_views(keys@) =~= search_keys(c));
    let o = rank_order(&keys);
    let mut r: Vec<Doc> = Vec::new();
    let mut k: usize = 0;
    while k < o.len()
        invariant
            k <= o@.len() == cands@.len(),
            is_ranking(search_keys(c), o@),
            forall|j: int| 0 <= j < cands@.len() ==> cands@[j]@ == #[trigger] c[j].1,
            r@.len() == k,
            forall|j: int| 0 <= j < k ==> r@[j]@ == #[trigger] c[o@[j] as int].1,
        decreases o@.len() - k,
    {
        let d = cands[o[k]].duplicate();
        r.push(d);
        k = k + 1;
    }
    assert(listed_in_order(doc_views(r@), c, o@));
    r
}

// ---------------------------------------------------------------------------
// Finding the docs a selector names
// ---------------------------------------------------------------------------

/// Doc `d` answers selector `sel` in pass `pass`: pass 0 asks for its exact
/// path, pass 1 for its id, pass 2 for a part of its path.
pub open spec fn selects(d: DocView, sel: Seq<char>, pass: int) -> bool {
    if pass == 0 {
        d.path == sel
    } else if pass == 1 {
        d.id == Some(sel)
    } else {
        has_infix(d.path, sel)
    }
}

/// Some doc of `ms` has path `p`.
pub open spec fn has_path(ms: Seq<DocView>, p: Seq<char>) -> bool {
    exists|k: int| 0 <= k < ms.len() && (#[trigger] ms[k]).path == p
}

/// `acc` extended, in the order of `docs`, by the docs that answer `sel` in
/// pass `pass` and whose path is not yet listed.
pub open spec fn pass_over(acc: Seq<DocView>, docs: Seq<DocView>, sel: Seq<char>, pass: int) -> Seq<
    DocView,
>
    decreases docs.len(),
{
    if docs.len() == 0 {
        acc
    } else {
        let a = pass_over(acc, docs.drop_last(), sel, pass);
        let d = docs.last();
        if selects(d, sel, pass) && !has_path(a, d.path) {
            a.push(d)
        } else {
            a
        }
    }
}

/// The docs selector `sel` names among `docs` narrowed by the filters:
/// those with that exact path, then those with that id, then those whose
/// path contains it, each path once.
pub open spec fn found(
    docs: Seq<DocView>,
    sel: Seq<char>,
    doc_type: Option<Seq<char>>,
    guild: Option<Seq<char>>,
    status: Option<Seq<char>>,
) -> Seq<DocView> {
    let scoped = filtered(docs, doc_type, guild, status);
    pass_over(pass_over(pass_over(seq![], scoped, sel, 0), scoped, sel, 1), scoped, sel, 2)
}

fn selects_exec(d: &Doc, sel: &str, pass: usize) -> (r: bool)
    ensures
        r == selects(d@, sel@, pass as int),
{
    if pass == 0 {
        str_eq(d.path.as_str(), sel)
    } else if pass == 1 {
        match &d.id {
            Some(id) => str_eq(id.as_str(), sel),
            None => false,
        }
    } else {
        contains(&chars_of(d.path.as_str()), &chars_of(sel))
    }
}

fn has_path_exec(ms: &Vec<Doc>, p: &str) -> (r: bool)
    ensures
        r == has_path(doc_views(ms@), p@),
{
    let mut k: usize = 0;
    while k < ms.len()
        invariant
            k <= ms@.len(),
            forall|j: int| 0 <= j < k ==> ms@[j]@.path != p@,
        decreases ms@.len() - k,
    {
        if str_eq(ms[k].path.as_str(), p) {
            assert(doc_views(ms@)[k as int].path == p@);
            return true;
        }
        k = k + 1;
    }
    assert forall|j: int| 0 <= j < ms@.len() implies (#[trigger] doc_views(ms@)[j]).path != p@ by {
        assert(ms@[j]@.path != p@);
    }
    false
}

fn pass_over_exec(acc: &mut Vec<Doc>, docs: &Vec<Doc>, sel: &str, pass: usize)
    ensures
        doc_views(final(acc)@) == pass_over(doc_views(old(acc)@), doc_views(docs@), sel@, pass as int),
{
    let ghost start = doc_views(acc@);
    let ghost all = doc_views(docs@);
    let mut i: usize = 0;
    assert(pass_over(start, all.take(0), sel@, pass as int) == start);
    while i < docs.len()
        invariant
            i <= docs@.len(),
            all == doc_views(docs@),
            doc_views(acc@) == pass_over(start, all.take(i as int), sel@, pass as int),
        decreases docs@.len() - i,
    {
        assert(all.take(i + 1).drop_last() =~= all.take(i as int));
        let d = &docs[i];
        if selects_exec(d, sel, pass) && !has_path_exec(acc, d.path.as_str()) {
            let ghost prev = doc_views(acc@);
            acc.push(d.duplicate());
            assert(doc_views(acc@) =~= prev.push(all[i as int]));
        }
        i = i + 1;
    }
    assert(all.take(docs@.len() as int) =~= all);
}

/// The docs that `selector` names among `docs` narrowed by the filters:
/// first those whose path is `selector`, then those whose id is
/// `selector`, then those whose path contains `selector`, never two with
/// the same path.
pub fn find_docs(
    docs: &[Doc],
    selector: &str,
    doc_type: Option<&str>,
    guild: Option<&str>,
    status: Option<&str>,
) -> (r: Vec<Doc>)
    ensures
        doc_views(r@) == found(
            doc_views(docs@),
            selector@,
            opt_str_view(doc_type),
            opt_str_view(guild),
            opt_str_view(status),
        ),
{
    let scoped = filter_docs(docs, doc_type, guild, status);
    let mut matches: Vec<Doc> = Vec::new();
    assert(doc_views(matches@) =~= Seq::<DocView>::empty());
    let mut pass: usize = 0;
    while pass < 3
        invariant
            pass <= 3,
            doc_views(matches@) == if pass == 0 {
                Seq::<DocView>::empty()
            } else if pass == 1 {
                pass_over(seq![], doc_views(scoped@), selector@, 0)
            } else if pass == 2 {
                pass_over(
                    pass_over(seq![], doc_views(scoped@), selector@, 0),
                    doc_views(scoped@),
                    selector@,
                    1,
                )
            } else {
                pass_over(
                    pass_over(
                        pass_over(seq![], doc_views(scoped@), selector@, 0),
                        doc_views(scoped@),
                        selector@,
                        1,
                    ),
                    doc_views(scoped@),
                    selector@,
                    2,
                )
            },
        decreases 3 - pass,
    {
        pass_over_exec(&mut matches, &scoped, selector, pass);
        pass = pass + 1;
    }
    matches
}

// ---------------------------------------------------------------------------
// Laws of filtering and finding
// ---------------------------------------------------------------------------

/// Filtering keeps exactly the docs that pass the filters, each where it
/// stood relative to the others.
pub proof fn law_filtered_exact(
    docs: Seq<DocView>,
    doc_type: Option<Seq<char>>,
    guild: Option<Seq<char>>,
    status: Option<Seq<char>>,
    d: DocView,
)
    ensures
        filtered(docs, doc_type, guild, status).contains(d) <==> (docs.contains(d) && keeps(
            d,
            doc_type,
            guild,
            status,
        )),
        filtered(docs, doc_type, guild, status).len() <= docs.len(),
    decreases docs.len(),
{
    if docs.len() > 0 {
        law_filtered_exact(docs.drop_last(), doc_type, guild, status, d);
        let rest = filtered(docs.drop_last(), doc_type, guild, status);
        if docs.contains(d) {
            let k = choose|k: int| 0 <= k < docs.len() && docs[k] == d;
            if k < docs.len() - 1 {
                assert(docs.drop_last()[k] == d);
            }
        }
        if docs.drop_last().contains(d) {
            let k = choose|k: int| 0 <= k < docs.drop_last().len() && docs.drop_last()[k] == d;
            assert(docs[k] == d);
        }
        if keeps(docs.last(), doc_type, guild, status) {
            assert(rest.push(docs.last())[rest.len() as int] == docs.last());
            if rest.contains(d) {
                let k = choose|k: int| 0 <= k < rest.len() && rest[k] == d;
                assert(rest.push(docs.last())[k] == d);
            }
            if rest.push(docs.last()).contains(d) && d != docs.last() {
                let k = choose|k: int| 0 <= k < rest.len() + 1 && rest.push(docs.last())[k] == d;
                assert(rest[k] == d);
            }
        }
        assert(docs.last() == docs[docs.len() - 1]);
    }
}

/// A pass only appends to what it is given.
pub proof fn lemma_pass_extends(acc: Seq<DocView>, docs: Seq<DocView>, sel: Seq<char>, pass: int)
    ensures
        pass_over(acc, docs, sel, pass).len() >= acc.len(),
        pass_over(acc, docs, sel, pass).take(acc.len() as int) == acc,
    decreases docs.len(),
{
    if docs.len() > 0 {
        lemma_pass_extends(acc, docs.drop_last(), sel, pass);
        let a = pass_over(acc, docs.drop_last(), sel, pass);
        assert(a.push(docs.last()).take(acc.len() as int) =~= a.take(acc.len() as int));
    }
}

/// A pass adds no path twice and no path already listed.
pub proof fn lemma_pass_distinct(acc: Seq<DocView>, docs: Seq<DocView>, sel: Seq<char>, pass: int)
    requires
        forall|k: int, l: int| 0 <= k < l < acc.len() ==> acc[k].path != acc[l].path,
    ensures
        ({
            let r = pass_over(acc, docs, sel, pass);
            forall|k: int, l: int| 0 <= k < l < r.len() ==> r[k].path != r[l].path
        }),
    decreases docs.len(),
{
    if docs.len() > 0 {
        lemma_pass_distinct(acc, docs.drop_last(), sel, pass);
        let a = pass_over(acc, docs.drop_last(), sel, pass);
        let d = docs.last();
        if selects(d, sel, pass) && !has_path(a, d.path) {
            let r = a.push(d);
            assert forall|k: int, l: int| 0 <= k < l < r.len() implies r[k].path != r[l].path by {
                if l == a.len() {
                    assert(r[k] == a[k]);
                    if a[k].path == d.path {
                        assert(has_path(a, d.path));
                    }
                }
            }
        }
    }
}

/// What a pass adds answers the selector and comes from `docs`.
pub proof fn lemma_pass_sound(
    acc: Seq<DocView>,
    docs: Seq<DocView>,
    sel: Seq<char>,
    pass: int,
    k: int,
)
    requires
        acc.len() <= k < pass_over(acc, docs, sel, pass).len(),
    ensures
        docs.contains(pass_over(acc, docs, sel, pass)[k]),
        selects(pass_over(acc, docs, sel, pass)[k], sel, pass),
    decreases docs.len(),
{
    if docs.len() > 0 {
        let a = pass_over(acc, docs.drop_last(), sel, pass);
        lemma_pass_extends(acc, docs.drop_last(), sel, pass);
        if k < a.len() {
            lemma_pass_sound(acc, docs.drop_last(), sel, pass, k);
            let j = choose|j: int| 0 <= j < docs.drop_last().len() && docs.drop_last()[j] == a[k];
            assert(docs[j] == a[k]);
        } else {
            assert(docs[docs.len() - 1] == docs.last());
        }
    }
}

/// After a pass, every doc of `docs` that answers the selector in that pass
/// has its path listed, and every path listed before still is.
pub proof fn lemma_pass_complete(
    acc: Seq<DocView>,
    docs: Seq<DocView>,
    sel: Seq<char>,
    pass: int,
)
    ensures
        forall|j: int|
            0 <= j < docs.len() && selects(#[trigger] docs[j], sel, pass) ==> has_path(
                pass_over(acc, docs, sel, pass),
                docs[j].path,
            ),
        forall|p: Seq<char>| has_path(acc, p) ==> has_path(pass_over(acc, docs, sel, pass), p),
    decreases docs.len(),
{
    if docs.len() > 0 {
        lemma_pass_complete(acc, docs.drop_last(), sel, pass);
        let a = pass_over(acc, docs.drop_last(), sel, pass);
        let r = pass_over(acc, docs, sel, pass);
        assert forall|p: Seq<char>| has_path(a, p) implies has_path(r, p) by {
            let k = choose|k: int| 0 <= k < a.len() && (#[trigger] a[k]).path == p;
            if r != a {
                assert(r == a.push(docs.last()));
                assert(r[k] == a[k]);
            }
        }
        assert forall|j: int| 0 <= j < docs.len() && selects(#[trigger] docs[j], sel, pass) implies has_path(
            r,
            docs[j].path,
        ) by {
            if j < docs.len() - 1 {
                assert(docs.drop_last()[j] == docs[j]);
            } else if !has_path(a, docs[j].path) {
                assert(r == a.push(docs.last()));
                assert(r[a.len() as int] == docs[j]);
            }
        }
    }
}

/// What pass 0 adds to nothing has the selector as its path, and it adds
/// something whenever some doc has that path.
pub proof fn lemma_exact_pass(docs: Seq<DocView>, sel: Seq<char>)
    ensures
        forall|k: int|
            0 <= k < pass_over(seq![], docs, sel, 0).len() ==> (#[trigger] pass_over(
                seq![],
                docs,
                sel,
                0,
            )[k]).path == sel,
        (exists|j: int| 0 <= j < docs.len() && (#[trigger] docs[j]).path == sel) ==> pass_over(
            seq![],
            docs,
            sel,
            0,
        ).len() > 0,
{
    assert forall|k: int| 0 <= k < pass_over(seq![], docs, sel, 0).len() implies (#[trigger] pass_over(
        seq![],
        docs,
        sel,
        0,
    )[k]).path == sel by {
        lemma_pass_sound(seq![], docs, sel, 0, k);
    }
    lemma_pass_complete(seq![], docs, sel, 0);
}

/// No two docs found for a selector share a path.
pub proof fn law_found_paths_distinct(
    docs: Seq<DocView>,
    sel: Seq<char>,
    doc_type: Option<Seq<char>>,
    guild: Option<Seq<char>>,
    status: Option<Seq<char>>,
)
    ensures
        ({
            let r = found(docs, sel, doc_type, guild, status);
            forall|k: int, l: int| 0 <= k < l < r.len() ==> r[k].path != r[l].path
        }),
{
    let scoped = filtered(docs, doc_type, guild, status);
    let p0 = pass_over(seq![], scoped, sel, 0);
    let p1 = pass_over(p0, scoped, sel, 1);
    lemma_pass_distinct(seq![], scoped, sel, 0);
    lemma_pass_distinct(p0, scoped, sel, 1);
    lemma_pass_distinct(p1, scoped, sel, 2);
}

/// Every doc found for a selector passes the filters and has the selector
/// as its path, as its id, or inside its path.
pub proof fn law_found_sound(
    docs: Seq<DocView>,
    sel: Seq<char>,
    doc_type: Option<Seq<char>>,
    guild: Option<Seq<char>>,
    status: Option<Seq<char>>,
    k: int,
)
    requires
        0 <= k < found(docs, sel, doc_type, guild, status).len(),
    ensures
        ({
            let d = found(docs, sel, doc_type, guild, status)[k];
            &&& docs.contains(d)
            &&& keeps(d, doc_type, guild, status)
            &&& (d.path == sel || d.id == Some(sel) || has_infix(d.path, sel))
        }),
{
    let scoped = filtered(docs, doc_type, guild, status);
    let p0 = pass_over(seq![], scoped, sel, 0);
    let p1 = pass_over(p0, scoped, sel, 1);
    let p2 = pass_over(p1, scoped, sel, 2);
    lemma_pass_extends(seq![], scoped, sel, 0);
    lemma_pass_extends(p0, scoped, sel, 1);
    lemma_pass_extends(p1, scoped, sel, 2);
    let d = p2[k];
    if k < p0.len() {
        assert(p1.take(p0.len() as int)[k] == p1[k]);
        assert(p2.take(p1.len() as int)[k] == p2[k]);
        lemma_pass_sound(seq![], scoped, sel, 0, k);
    } else if k < p1.len() {
        assert(p2.take(p1.len() as int)[k] == p2[k]);
        lemma_pass_sound(p0, scoped, sel, 1, k);
    } else {
        lemma_pass_sound(p1, scoped, sel, 2, k);
    }
    law_filtered_exact(docs, doc_type, guild, status, d);
}

/// Every doc that passes the filters and has the selector as its path, as
/// its id or inside its path is found, or another doc with its path is.
pub proof fn law_found_complete(
    docs: Seq<DocView>,
    sel: Seq<char>,
    doc_type: Option<Seq<char>>,
    guild: Option<Seq<char>>,
    status: Option<Seq<char>>,
    d: DocView,
)
    requires
        docs.contains(d),
        keeps(d, doc_type, guild, status),
        d.path == sel || d.id == Some(sel) || has_infix(d.path, sel),
    ensures
        has_path(found(docs, sel, doc_type, guild, status), d.path),
{
    let scoped = filtered(docs, doc_type, guild, status);
    law_filtered_exact(docs, doc_type, guild, status, d);
    let j = choose|j: int| 0 <= j < scoped.len() && scoped[j] == d;
    let p0 = pass_over(seq![], scoped, sel, 0);
    let p1 = pass_over(p0, scoped, sel, 1);
    lemma_pass_complete(seq![], scoped, sel, 0);
    lemma_pass_complete(p0, scoped, sel, 1);
    lemma_pass_complete(p1, scoped, sel, 2);
    if d.path == sel {
        assert(selects(scoped[j], sel, 0));
    } else if d.id == Some(sel) {
        assert(selects(scoped[j], sel, 1));
    } else {
        assert(selects(scoped[j], sel, 2));
    }
}

/// When some doc that passes the filters has the selector as its exact
/// path, that path is the first one found.
pub proof fn law_exact_path_first(
    docs: Seq<DocView>,
    sel: Seq<char>,
    doc_type: Option<Seq<char>>,
    guild: Option<Seq<char>>,
    status: Option<Seq<char>>,
    d: DocView,
)
    requires
        docs.contains(d),
        keeps(d, doc_type, guild, status),
        d.path == sel,
    ensures
        found(docs, sel, doc_type, guild, status).len() > 0,
        found(docs, sel, doc_type, guild, status)[0].path == sel,
{
    let scoped = filtered(docs, doc_type, guild, status);
    law_filtered_exact(docs, doc_type, guild, status, d);
    let j = choose|j: int| 0 <= j < scoped.len() && scoped[j] == d;
    assert(scoped[j].path == sel);
    lemma_exact_pass(scoped, sel);
    let p0 = pass_over(seq![], scoped, sel, 0);
    let p1 = pass_over(p0, scoped, sel, 1);
    let p2 = pass_over(p1, scoped, sel, 2);
    lemma_pass_extends(p0, scoped, sel, 1);
    lemma_pass_extends(p1, scoped, sel, 2);
    assert(p0[0].path == sel);
    assert(p1.take(p0.len() as int)[0] == p1[0]);
    assert(p2.take(p1.len() as int)[0] == p2[0]);
}

// ---------------------------------------------------------------------------
// Laws of searching
// ---------------------------------------------------------------------------

/// The candidates of a search are the docs with a positive score, each
/// with its score.
pub proof fn lemma_candidates(docs: Seq<DocView>, terms: Seq<Seq<char>>)
    ensures
        forall|k: int|
            0 <= k < candidates(docs, terms).len() ==> {
                let c = #[trigger] candidates(docs, terms)[k];
                &&& docs.contains(c.1)
                &&& c.0 == score(haystack(c.1), terms) as int
                &&& c.0 > 0
            },
        forall|j: int|
            0 <= j < docs.len() && score(haystack(#[trigger] docs[j]), terms) > 0 ==> exists|k: int|
                0 <= k < candidates(docs, terms).len() && candidates(docs, terms)[k].1 == docs[j],
    decreases docs.len(),
{
    if docs.len() > 0 {
        let rest = docs.drop_last();
        lemma_candidates(rest, terms);
        let cr = candidates(rest, terms);
        let c = candidates(docs, terms);
        assert forall|k: int| 0 <= k < c.len() implies {
            let e = #[trigger] c[k];
            &&& docs.contains(e.1)
            &&& e.0 == score(haystack(e.1), terms) as int
            &&& e.0 > 0
        } by {
            if k < cr.len() {
                assert(c[k] == cr[k]);
                let i = choose|i: int| 0 <= i < rest.len() && rest[i] == cr[k].1;
                assert(docs[i] == rest[i]);
            } else {
                assert(docs[docs.len() - 1] == docs.last());
            }
        }
        assert forall|j: int|
            0 <= j < docs.len() && score(haystack(#[trigger] docs[j]), terms) > 0 implies exists|k: int|
            0 <= k < c.len() && c[k].1 == docs[j] by {
            if j < docs.len() - 1 {
                assert(rest[j] == docs[j]);
                let k = choose|k: int| 0 <= k < cr.len() && cr[k].1 == rest[j];
                assert(c[k] == cr[k]);
            } else {
                assert(c[cr.len() as int].1 == docs[j]);
            }
        }
    }
}

/// A search has one result: the docs it lists and their order are fully
/// determined by the docs and the query.
pub proof fn law_search_result_unique(
    r1: Seq<DocView>,
    r2: Seq<DocView>,
    docs: Seq<DocView>,
    query: Seq<char>,
)
    requires
        is_search_result(r1, docs, query),
        is_search_result(r2, docs, query),
    ensures
        r1 == r2,
{
    let c = candidates(docs, query_terms(query));
    let o1 = choose|o: Seq<usize>| is_ranking(search_keys(c), o) && listed_in_order(r1, c, o);
    let o2 = choose|o: Seq<usize>| is_ranking(search_keys(c), o) && listed_in_order(r2, c, o);
    law_ranking_unique(search_keys(c), o1, o2);
    assert forall|k: int| 0 <= k < r1.len() implies r1[k] == r2[k] by {
        assert(r1[k] == c[o1[k] as int].1);
        assert(r2[k] == c[o2[k] as int].1);
    }
    assert(r1 =~= r2);
}

/// Every doc a search lists is one of the docs, with at least one term of
/// the query in its title, path, status or summary.
pub proof fn law_search_sound(r: Seq<DocView>, docs: Seq<DocView>, query: Seq<char>, k: int)
    requires
        is_search_result(r, docs, query),
        0 <= k < r.len(),
    ensures
        docs.contains(r[k]),
        score(haystack(r[k]), query_terms(query)) > 0,
{
    let c = candidates(docs, query_terms(query));
    let o = choose|o: Seq<usize>| is_ranking(search_keys(c), o) && listed_in_order(r, c, o);
    lemma_candidates(docs, query_terms(query));
    assert(r[k] == c[o[k] as int].1);
    assert(o[k] < c.len());
}

/// Every doc with at least one term of the query in its title, path, status
/// or summary is listed by the search.
pub proof fn law_search_complete(r: Seq<DocView>, docs: Seq<DocView>, query: Seq<char>, j: int)
    requires
        is_search_result(r, docs, query),
        0 <= j < docs.len(),
        score(haystack(docs[j]), query_terms(query)) > 0,
    ensures
        r.contains(docs[j]),
{
    let c = candidates(docs, query_terms(query));
    let o = choose|o: Seq<usize>| is_ranking(search_keys(c), o) && listed_in_order(r, c, o);
    lemma_candidates(docs, query_terms(query));
    let i = choose|i: int| 0 <= i < c.len() && c[i].1 == docs[j];
    lemma_ranking_covers(search_keys(c), o, i);
    let k = choose|k: int| 0 <= k < o.len() && o[k] as int == i;
    assert(r[k] == docs[j]);
}

/// A search lists docs with more matching terms first and, among docs with
/// as many, docs in path order.
pub proof fn law_search_order(r: Seq<DocView>, docs: Seq<DocView>, query: Seq<char>, k: int, l: int)
    requires
        is_search_result(r, docs, query),
        0 <= k < l < r.len(),
    ensures
        score(haystack(r[k]), query_terms(query)) >= score(haystack(r[l]), query_terms(query)),
        score(haystack(r[k]), query_terms(query)) == score(haystack(r[l]), query_terms(query))
            ==> !chars_before(r[l].path, r[k].path),
{
    let terms = query_terms(query);
    let c = candidates(docs, terms);
    let o = choose|o: Seq<usize>| is_ranking(search_keys(c), o) && listed_in_order(r, c, o);
    lemma_candidates(docs, terms);
    let a = o[k] as int;
    let b = o[l] as int;
    assert(ranks_before(search_keys(c), a, b));
    assert(r[k] == c[a].1);
    assert(r[l] == c[b].1);
    let pa = c[a].1.path;
    let pb = c[b].1.path;
    assert(search_keys(c)[a] == (c[a].0, seq![pa]));
    assert(search_keys(c)[b] == (c[b].0, seq![pb]));
    assert(c[a].0 == score(haystack(r[k]), terms) as int);
    assert(c[b].0 == score(haystack(r[l]), terms) as int);
    assert(seq![pa].drop_first() =~= Seq::<Seq<char>>::empty());
    assert(seq![pb].drop_first() =~= Seq::<Seq<char>>::empty());
    lemma_chars_before_strict_total(pa, pb, pa);
    lemma_chars_before_strict_total(pb, pa, pb);
}

/// Removing one term from a query lowers the score by one exactly when that
/// term occurs.
pub proof fn lemma_score_remove(h: Seq<char>, t: Seq<Seq<char>>, i: int)
    requires
        0 <= i < t.len(),
    ensures
        score(h, t) == score(h, t.remove(i)) + if has_infix(h, t[i]) {
            1nat
        } else {
            0nat
        },
    decreases t.len(),
{
    if i == t.len() - 1 {
        assert(t.remove(i) =~= t.drop_last());
    } else {
        lemma_score_remove(h, t.drop_last(), i);
        assert(t.drop_last().remove(i) =~= t.remove(i).drop_last());
        assert(t.remove(i).last() == t.last());
    }
}

/// The score depends on the terms, not on their order.
pub proof fn lemma_score_multiset(h: Seq<char>, t1: Seq<Seq<char>>, t2: Seq<Seq<char>>)
    requires
        t1.to_multiset() == t2.to_multiset(),
    ensures
        score(h, t1) == score(h, t2),
    decreases t1.len(),
{
    broadcast use vstd::seq_lib::group_to_multiset_ensures, vstd::multiset::group_multiset_axioms;

    if t1.len() == 0 {
        assert(t2.len() == t2.to_multiset().len());
        assert(t2 =~= t1);
    } else {
        let x = t1.last();
        let t1p = t1.drop_last();
        assert(t1 =~= t1p.push(x));
        assert(t1.to_multiset().count(x) > 0);
        assert(t2.contains(x));
        let i = choose|i: int| 0 <= i < t2.len() && t2[i] == x;
        let t2p = t2.remove(i);
        assert(t1p.to_multiset() =~= t2p.to_multiset());
        lemma_score_multiset(h, t1p, t2p);
        lemma_score_remove(h, t2, i);
    }
}

/// Queries whose terms score every doc alike have the same candidates.
pub proof fn lemma_candidates_same_scores(docs: Seq<DocView>, t1: Seq<Seq<char>>, t2: Seq<Seq<char>>)
    requires
        forall|k: int|
            0 <= k < docs.len() ==> score(haystack(#[trigger] docs[k]), t1) == score(
                haystack(docs[k]),
                t2,
            ),
    ensures
        candidates(docs, t1) == candidates(docs, t2),
    decreases docs.len(),
{
    if docs.len() > 0 {
        let rest = docs.drop_last();
        assert forall|k: int| 0 <= k < rest.len() implies score(haystack(#[trigger] rest[k]), t1)
            == score(haystack(rest[k]), t2) by {
            assert(rest[k] == docs[k]);
        }
        lemma_candidates_same_scores(rest, t1, t2);
        assert(docs.last() == docs[docs.len() - 1]);
    }
}

/// The result of a search does not depend on the order of the query's
/// terms: queries with the same terms, counted with repetition, give the
/// same result.
pub proof fn law_search_ignores_term_order(
    docs: Seq<DocView>,
    q1: Seq<char>,
    q2: Seq<char>,
    r1: Seq<DocView>,
    r2: Seq<DocView>,
)
    requires
        query_terms(q1).to_multiset() == query_terms(q2).to_multiset(),
        is_search_result(r1, docs, q1),
        is_search_result(r2, docs, q2),
    ensures
        r1 == r2,
{
    let t1 = query_terms(q1);
    let t2 = query_terms(q2);
    assert forall|k: int| 0 <= k < docs.len() implies score(haystack(#[trigger] docs[k]), t1)
        == score(haystack(docs[k]), t2) by {
        lemma_score_multiset(haystack(docs[k]), t1, t2);
    }
    lemma_candidates_same_scores(docs, t1, t2);
    let c = candidates(docs, t2);
    let o2 = choose|o: Seq<usize>| is_ranking(search_keys(c), o) && listed_in_order(r2, c, o);
    assert(is_ranking(search_keys(candidates(docs, query_terms(q1))), o2));
    assert(is_search_result(r2, docs, q1));
    law_search_result_unique(r1, r2, docs, q1);
}

/// Every word of ASCII text is ASCII.
pub proof fn lemma_words_ascii(s: Seq<char>, i: int)
    requires
        is_ascii_text(s),
    ensures
        forall|k: int| 0 <= k < words_from(s, i).len() ==> is_ascii_text(#[trigger] words_from(s, i)[k]),
    decreases s.len() - i,
{
    if 0 <= i < s.len() {
        if is_white(s[i]) {
            lemma_words_ascii(s, i + 1);
            assert(words_from(s, i) == words_from(s, i + 1));
        } else {
            let k = word_end(s, i + 1);
            lemma_word_end(s, i + 1);
            lemma_words_ascii(s, k);
            let w = s.subrange(i, k);
            assert(is_ascii_text(w)) by {
                assert forall|j: int| 0 <= j < w.len() implies is_ascii_char(#[trigger] w[j]) by {
                    assert(w[j] == s[i + j]);
                }
            }
            let ws = words_from(s, i);
            assert(ws == seq![w] + words_from(s, k));
            assert forall|j: int| 0 <= j < ws.len() implies is_ascii_text(#[trigger] ws[j]) by {
                if j == 0 {
                    assert(ws[j] == w);
                } else {
                    assert(ws[j] == words_from(s, k)[j - 1]);
                }
            }
        }
    }
}

/// The words of a query, each in ASCII lowercase.
pub open spec fn ascii_terms(q: Seq<char>) -> Seq<Seq<char>> {
    words(q).map_values(|w: Seq<char>| ascii_lowercase(w))
}

/// On ASCII queries, a search ignores the order of the query's words and
/// the case of their letters.
pub proof fn law_search_ignores_ascii_case_and_order(
    docs: Seq<DocView>,
    q1: Seq<char>,
    q2: Seq<char>,
    r1: Seq<DocView>,
    r2: Seq<DocView>,
)
    requires
        is_ascii_text(q1),
        is_ascii_text(q2),
        ascii_terms(q1).to_multiset() == ascii_terms(q2).to_multiset(),
        is_search_result(r1, docs, q1),
        is_search_result(r2, docs, q2),
    ensures
        r1 == r2,
{
    lemma_words_ascii(q1, 0);
    lemma_words_ascii(q2, 0);
    assert(query_terms(q1) =~= ascii_terms(q1));
    assert(query_terms(q2) =~= ascii_terms(q2));
    law_search_ignores_term_order(docs, q1, q2, r1, r2);
}

// ---------------------------------------------------------------------------
// What a search looks in
// ---------------------------------------------------------------------------

/// Two ASCII texts side by side are ASCII text.
pub proof fn lemma_ascii_concat(a: Seq<char>, b: Seq<char>)
    requires
        is_ascii_text(a),
        is_ascii_text(b),
    ensures
        is_ascii_text(a + b),
{
    assert forall|i: int| 0 <= i < (a + b).len() implies is_ascii_char(#[trigger] (a + b)[i]) by {
        if i < a.len() {
            assert((a + b)[i] == a[i]);
        } else {
            assert((a + b)[i] == b[i - a.len()]);
        }
    }
}

/// What occurs in the lowercase of a part of a text occurs in the lowercase
/// of the whole text.
pub proof fn lemma_infix_of_part(whole: Seq<char>, part: Seq<char>, off: int, t: Seq<char>)
    requires
        0 <= off,
        off + part.len() <= whole.len(),
        forall|i: int| 0 <= i < part.len() ==> whole[off + i] == #[trigger] part[i],
        has_infix(ascii_lowercase(part), t),
    ensures
        has_infix(ascii_lowercase(whole), t),
{
    let p = choose|p: int| occurs_at(ascii_lowercase(part), t, p);
    let lw = ascii_lowercase(whole);
    let lp = ascii_lowercase(part);
    assert(lw.subrange(off + p, off + p + t.len()) =~= lp.subrange(p, p + t.len())) by {
        assert forall|i: int| 0 <= i < t.len() implies #[trigger] lw.subrange(off + p, off + p
            + t.len())[i] == lp.subrange(p, p + t.len())[i] by {
            assert(whole[off + (p + i)] == part[p + i]);
        }
    }
    assert(occurs_at(lw, t, off + p));
}

/// A term of the query that occurs in the searched text gives a positive
/// score.
pub proof fn lemma_score_positive(h: Seq<char>, terms: Seq<Seq<char>>, t: Seq<char>)
    requires
        terms.contains(t),
        has_infix(h, t),
    ensures
        score(h, terms) > 0,
    decreases terms.len(),
{
    if terms.last() != t {
        let k = choose|k: int| 0 <= k < terms.len() && terms[k] == t;
        assert(terms.drop_last()[k] == t);
        lemma_score_positive(h, terms.drop_last(), t);
    }
}

/// A search finds every doc whose title, path, status or summary contains,
/// ignoring case, a term of the query (for docs whose texts are ASCII, on
/// which case is ASCII case).
pub proof fn law_search_looks_in_every_field(
    r: Seq<DocView>,
    docs: Seq<DocView>,
    query: Seq<char>,
    j: int,
    t: Seq<char>,
)
    requires
        is_search_result(r, docs, query),
        0 <= j < docs.len(),
        query_terms(query).contains(t),
        is_ascii_text(docs[j].title),
        is_ascii_text(docs[j].path),
        is_ascii_text(docs[j].status),
        docs[j].summary matches Some(s) ==> is_ascii_text(s),
        has_infix(lowercase_of(docs[j].title), t) || has_infix(lowercase_of(docs[j].path), t)
            || has_infix(lowercase_of(docs[j].status), t) || (docs[j].summary matches Some(s)
            && has_infix(lowercase_of(s), t)),
    ensures
        r.contains(docs[j]),
{
    let d = docs[j];
    let e = match d.summary {
        Some(s) => s,
        None => Seq::<char>::empty(),
    };
    reveal_strlit(" ");
    let sp = " "@;
    assert(is_ascii_text(sp));
    assert(is_ascii_text(e));
    let whole = d.title + sp + d.path + sp + d.status + sp + e;
    lemma_ascii_concat(d.title, sp);
    lemma_ascii_concat(d.title + sp, d.path);
    lemma_ascii_concat(d.title + sp + d.path, sp);
    lemma_ascii_concat(d.title + sp + d.path + sp, d.status);
    lemma_ascii_concat(d.title + sp + d.path + sp + d.status, sp);
    lemma_ascii_concat(d.title + sp + d.path + sp + d.status + sp, e);
    assert(haystack(d) == ascii_lowercase(whole));
    let o_path: int = d.title.len() as int + 1;
    let o_status: int = o_path + d.path.len() + 1;
    let o_summary: int = o_status + d.status.len() + 1;
    if has_infix(lowercase_of(d.title), t) {
        lemma_infix_of_part(whole, d.title, 0, t);
    } else if has_infix(lowercase_of(d.path), t) {
        lemma_infix_of_part(whole, d.path, o_path, t);
    } else if has_infix(lowercase_of(d.status), t) {
        lemma_infix_of_part(whole, d.status, o_status, t);
    } else {
        lemma_infix_of_part(whole, e, o_summary, t);
    }
    lemma_score_positive(haystack(d), query_terms(query), t);
    law_search_complete(r, docs, query, j);
}

// ---------------------------------------------------------------------------
// The filters and the score, stated directly
// ---------------------------------------------------------------------------

/// Doc `d` has the type, guild and status that the options ask for: its type
/// is the `--type` given, its guild the `--guild` given, and its status
/// contains the `--status` text ignoring case; an option not given asks for
/// nothing.
pub open spec fn meets_options(
    d: DocView,
    doc_type: Option<Seq<char>>,
    guild: Option<Seq<char>>,
    status: Option<Seq<char>>,
) -> bool {
    &&& doc_type matches Some(t) ==> d.doc_type == t
    &&& guild matches Some(g) ==> d.guild == Some(g)
    &&& status matches Some(s) ==> has_infix(lowercase_of(d.status), lowercase_of(s))
}

/// Doc `d` answers selector `sel`: by its exact path, by its id, or by a part
/// of its path.
pub open spec fn answers_selector(d: DocView, sel: Seq<char>) -> bool {
    d.path == sel || d.id == Some(sel) || has_infix(d.path, sel)
}

/// The filters pass exactly the docs that meet the options.
pub proof fn law_keeps_is_meets_options(
    d: DocView,
    doc_type: Option<Seq<char>>,
    guild: Option<Seq<char>>,
    status: Option<Seq<char>>,
)
    ensures
        keeps(d, doc_type, guild, status) == meets_options(d, doc_type, guild, status),
{
}

/// Filtering keeps exactly the docs that meet the options.
pub proof fn law_filter_meets_options(
    docs: Seq<DocView>,
    doc_type: Option<Seq<char>>,
    guild: Option<Seq<char>>,
    status: Option<Seq<char>>,
    d: DocView,
)
    ensures
        filtered(docs, doc_type, guild, status).contains(d) <==> docs.contains(d) && meets_options(
            d,
            doc_type,
            guild,
            status,
        ),
{
    law_filtered_exact(docs, doc_type, guild, status, d);
}

/// The score of a text is the number of the query's terms, counted with
/// repetition, that occur in it.
pub proof fn law_score_counts_matching_terms(h: Seq<char>, terms: Seq<Seq<char>>)
    ensures
        score(h, terms) == terms.filter(|t: Seq<char>| has_infix(h, t)).len(),
    decreases terms.len(),
{
    reveal_with_fuel(Seq::<_>::filter, 1);
    if terms.len() > 0 {
        law_score_counts_matching_terms(h, terms.drop_last());
    }
}

/// Every word of a text is non-empty and holds no whitespace.
pub proof fn lemma_words_unbroken(s: Seq<char>, i: int)
    ensures
        forall|k: int|
            0 <= k < words_from(s, i).len() ==> (#[trigger] words_from(s, i)[k]).len() > 0 && forall|
                x: int,
            | 0 <= x < words_from(s, i)[k].len() ==> !is_white(words_from(s, i)[k][x]),
    decreases s.len() - i,
{
    if 0 <= i < s.len() {
        if is_white(s[i]) {
            lemma_words_unbroken(s, i + 1);
            assert(words_from(s, i) == words_from(s, i + 1));
        } else {
            let k = word_end(s, i + 1);
            lemma_word_end(s, i + 1);
            lemma_words_unbroken(s, k);
            let w = s.subrange(i, k);
            let ws = words_from(s, i);
            assert(ws == seq![w] + words_from(s, k));
            assert forall|x: int| 0 <= x < w.len() implies !is_white(w[x]) by {
                assert(w[x] == s[i + x]);
            }
            assert forall|j: int| 0 <= j < ws.len() implies (#[trigger] ws[j]).len() > 0 && forall|
                x: int,
            | 0 <= x < ws[j].len() ==> !is_white(ws[j][x]) by {
                if j == 0 {
                    assert(ws[j] == w);
                } else {
                    assert(ws[j] == words_from(s, k)[j - 1]);
                }
            }
        }
    }
}

/// A positive score has a term that occurs.
proof fn lemma_score_witness(h: Seq<char>, terms: Seq<Seq<char>>)
    requires
        score(h, terms) > 0,
    ensures
        exists|t: Seq<char>| terms.contains(t) && has_infix(h, t),
    decreases terms.len(),
{
    if has_infix(h, terms.last()) {
        assert(terms[terms.len() - 1] == terms.last());
    } else {
        lemma_score_witness(h, terms.drop_last());
        let t = choose|t: Seq<char>| terms.drop_last().contains(t) && has_infix(h, t);
        let k = choose|k: int| 0 <= k < terms.drop_last().len() && terms.drop_last()[k] == t;
        assert(terms[k] == t);
    }
}

/// What occurs in the lowercase of a text within the span of one of its
/// parts occurs in the lowercase of that part.
proof fn lemma_infix_within_part(whole: Seq<char>, part: Seq<char>, off: int, t: Seq<char>, p: int)
    requires
        0 <= off <= p,
        p + t.len() <= off + part.len(),
        off + part.len() <= whole.len(),
        forall|i: int| 0 <= i < part.len() ==> whole[off + i] == #[trigger] part[i],
        occurs_at(ascii_lowercase(whole), t, p),
    ensures
        has_infix(ascii_lowercase(part), t),
{
    let lw = ascii_lowercase(whole);
    let lp = ascii_lowercase(part);
    assert(lp.subrange(p - off, p - off + t.len()) =~= t) by {
        assert forall|i: int| 0 <= i < t.len() implies #[trigger] lp.subrange(
            p - off,
            p - off + t.len(),
        )[i] == t[i] by {
            assert(whole[off + (p - off + i)] == part[p - off + i]);
            assert(lw.subrange(p, p + t.len())[i] == t[i]);
        }
    }
    assert(occurs_at(lp, t, p - off));
}

/// Every doc that a search lists has a term of the query in its title, path,
/// status or summary, ignoring case (for ASCII queries and docs whose texts
/// are ASCII, on which case is ASCII case).
pub proof fn law_search_lists_only_matching(
    r: Seq<DocView>,
    docs: Seq<DocView>,
    query: Seq<char>,
    k: int,
)
    requires
        is_search_result(r, docs, query),
        0 <= k < r.len(),
        is_ascii_text(query),
        is_ascii_text(r[k].title),
        is_ascii_text(r[k].path),
        is_ascii_text(r[k].status),
        r[k].summary matches Some(s) ==> is_ascii_text(s),
    ensures
        docs.contains(r[k]),
        exists|t: Seq<char>|
            #[trigger] query_terms(query).contains(t) && (has_infix(lowercase_of(r[k].title), t)
                || has_infix(lowercase_of(r[k].path), t) || has_infix(lowercase_of(r[k].status), t)
                || (r[k].summary matches Some(s) && has_infix(lowercase_of(s), t))),
{
    let d = r[k];
    let terms = query_terms(query);
    law_search_sound(r, docs, query, k);
    lemma_score_witness(haystack(d), terms);
    let t = choose|t: Seq<char>| terms.contains(t) && has_infix(haystack(d), t);
    // The term is a lowercased word of the query: non-empty, without spaces.
    lemma_words_ascii(query, 0);
    lemma_words_unbroken(query, 0);
    let ti = choose|ti: int| 0 <= ti < terms.len() && terms[ti] == t;
    let w = words(query)[ti];
    assert(t == lowercase_of(w));
    assert(t == ascii_lowercase(w));
    assert(forall|x: int| 0 <= x < t.len() ==> t[x] != ' ') by {
        assert forall|x: int| 0 <= x < t.len() implies t[x] != ' ' by {
            assert(!is_white(w[x]));
        }
    }
    // The searched text: the four texts with a space between each two.
    let e = match d.summary {
        Some(s) => s,
        None => Seq::<char>::empty(),
    };
    reveal_strlit(" ");
    let sp = " "@;
    assert(is_ascii_text(sp));
    assert(is_ascii_text(e));
    let whole = d.title + sp + d.path + sp + d.status + sp + e;
    lemma_ascii_concat(d.title, sp);
    lemma_ascii_concat(d.title + sp, d.path);
    lemma_ascii_concat(d.title + sp + d.path, sp);
    lemma_ascii_concat(d.title + sp + d.path + sp, d.status);
    lemma_ascii_concat(d.title + sp + d.path + sp + d.status, sp);
    lemma_ascii_concat(d.title + sp + d.path + sp + d.status + sp, e);
    assert(haystack(d) == ascii_lowercase(whole));
    let lw = ascii_lowercase(whole);
    let p = choose|p: int| occurs_at(lw, t, p);
    let b1: int = d.title.len() as int;
    let b2: int = b1 + 1 + d.path.len();
    let b3: int = b2 + 1 + d.status.len();
    assert(whole[b1] == ' ' && whole[b2] == ' ' && whole[b3] == ' ');
    assert(lw[b1] == ' ' && lw[b2] == ' ' && lw[b3] == ' ');
    assert(!(p <= b1 < p + t.len())) by {
        if p <= b1 < p + t.len() {
            assert(lw.subrange(p, p + t.len())[b1 - p] == lw[b1]);
        }
    }
    assert(!(p <= b2 < p + t.len())) by {
        if p <= b2 < p + t.len() {
            assert(lw.subrange(p, p + t.len())[b2 - p] == lw[b2]);
        }
    }
    assert(!(p <= b3 < p + t.len())) by {
        if p <= b3 < p + t.len() {
            assert(lw.subrange(p, p + t.len())[b3 - p] == lw[b3]);
        }
    }
    assert(t.len() > 0);
    if p + t.len() <= b1 {
        lemma_infix_within_part(whole, d.title, 0, t, p);
    } else if p > b1 && p + t.len() <= b2 {
        lemma_infix_within_part(whole, d.path, b1 + 1, t, p);
    } else if p > b2 && p + t.len() <= b3 {
        lemma_infix_within_part(whole, d.status, b2 + 1, t, p);
    } else {
        assert(p > b3);
        lemma_infix_within_part(whole, e, b3 + 1, t, p);
        assert(d.summary is Some);
    }
}

/// What a pass adds has a path not listed before the pass.
pub proof fn lemma_pass_fresh(acc: Seq<DocView>, docs: Seq<DocView>, sel: Seq<char>, pass: int, k: int)
    requires
        acc.len() <= k < pass_over(acc, docs, sel, pass).len(),
    ensures
        !has_path(acc, pass_over(acc, docs, sel, pass)[k].path),
    decreases docs.len(),
{
    if docs.len() > 0 {
        let a = pass_over(acc, docs.drop_last(), sel, pass);
        lemma_pass_extends(acc, docs.drop_last(), sel, pass);
        if k < a.len() {
            lemma_pass_fresh(acc, docs.drop_last(), sel, pass, k);
        } else {
            let d = docs.last();
            if has_path(acc, d.path) {
                let j = choose|j: int| 0 <= j < acc.len() && (#[trigger] acc[j]).path == d.path;
                assert(a.take(acc.len() as int)[j] == a[j]);
                assert(has_path(a, d.path));
            }
        }
    }
}

/// The docs found by exact path come first, then those found by id, then
/// those found by a part of their path.
pub proof fn law_found_order(
    docs: Seq<DocView>,
    sel: Seq<char>,
    doc_type: Option<Seq<char>>,
    guild: Option<Seq<char>>,
    status: Option<Seq<char>>,
    k: int,
    l: int,
)
    requires
        0 <= k < l < found(docs, sel, doc_type, guild, status).len(),
    ensures
        ({
            let f = found(docs, sel, doc_type, guild, status);
            &&& f[l].path == sel ==> f[k].path == sel
            &&& f[l].id == Some(sel) ==> f[k].path == sel || f[k].id == Some(sel)
        }),
{
    let scoped = filtered(docs, doc_type, guild, status);
    let p0 = pass_over(seq![], scoped, sel, 0);
    let p1 = pass_over(p0, scoped, sel, 1);
    let p2 = pass_over(p1, scoped, sel, 2);
    lemma_pass_extends(seq![], scoped, sel, 0);
    lemma_pass_extends(p0, scoped, sel, 1);
    lemma_pass_extends(p1, scoped, sel, 2);
    lemma_pass_complete(seq![], scoped, sel, 0);
    lemma_pass_complete(p0, scoped, sel, 1);
    // Where each of the two stands, and what its pass says of it.
    assert forall|i: int| 0 <= i < p2.len() implies {
        &&& (i < p0.len() ==> (#[trigger] p2[i]).path == sel)
        &&& (p0.len() <= i < p1.len() ==> p2[i].id == Some(sel) && p2[i].path != sel)
        &&& (p1.len() <= i ==> p2[i].path != sel && p2[i].id != Some(sel))
    } by {
        if i < p0.len() {
            assert(p1.take(p0.len() as int)[i] == p1[i]);
            assert(p2.take(p1.len() as int)[i] == p2[i]);
            lemma_pass_sound(seq![], scoped, sel, 0, i);
        } else if i < p1.len() {
            assert(p2.take(p1.len() as int)[i] == p2[i]);
            lemma_pass_sound(p0, scoped, sel, 1, i);
            lemma_pass_fresh(p0, scoped, sel, 1, i);
            let d = p1[i];
            if d.path == sel {
                let j = choose|j: int| 0 <= j < scoped.len() && scoped[j] == d;
                assert(selects(scoped[j], sel, 0));
            }
        } else {
            let d = p2[i];
            lemma_pass_sound(p1, scoped, sel, 2, i);
            lemma_pass_fresh(p1, scoped, sel, 2, i);
            let j = choose|j: int| 0 <= j < scoped.len() && scoped[j] == d;
            if d.path == sel {
                assert(selects(scoped[j], sel, 0));
                let m = choose|m: int| 0 <= m < p0.len() && (#[trigger] p0[m]).path == d.path;
                assert(p1.take(p0.len() as int)[m] == p1[m]);
                assert(has_path(p1, d.path));
            }
            if d.id == Some(sel) {
                assert(selects(scoped[j], sel, 1));
            }
        }
    }
    let fk = p2[k];
    let fl = p2[l];
    assert(k < p0.len() ==> fk.path == sel);
    assert(l < p0.len() ==> fl.path == sel);
}

} // verus!
