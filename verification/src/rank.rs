//! Stable ordering of items by a key made of a score (higher first) and a
//! list of text parts compared lexicographically (smaller first).

use vstd::prelude::*;
use crate::text::views;

verus! {

/// `a` comes before `b` in the order of `String`'s `Ord` (code point by code
/// point, a proper prefix first).
pub open spec fn chars_before(a: Seq<char>, b: Seq<char>) -> bool
    decreases a.len(),
{
    if a.len() == 0 {
        b.len() > 0
    } else if b.len() == 0 {
        false
    } else if a[0] != b[0] {
        a[0] < b[0]
    } else {
        chars_before(a.drop_first(), b.drop_first())
    }
}

/// Lexicographic order on lists of texts, each compared by `chars_before`.
pub open spec fn parts_before(a: Seq<Seq<char>>, b: Seq<Seq<char>>) -> bool
    decreases a.len(),
{
    if a.len() == 0 {
        b.len() > 0
    } else if b.len() == 0 {
        false
    } else if a[0] != b[0] {
        chars_before(a[0], b[0])
    } else {
        parts_before(a.drop_first(), b.drop_first())
    }
}

pub proof fn lemma_chars_before_strict_total(a: Seq<char>, b: Seq<char>, c: Seq<char>)
    ensures
        !chars_before(a, a),
        chars_before(a, b) ==> !chars_before(b, a),
        chars_before(a, b) && chars_before(b, c) ==> chars_before(a, c),
        a != b ==> chars_before(a, b) || chars_before(b, a),
    decreases a.len(),
{
    if a.len() == 0 && b.len() == 0 {
        assert(a =~= b);
    }
    if a.len() > 0 {
        lemma_chars_before_strict_total(a.drop_first(), b.drop_first(), c.drop_first());
        if b.len() > 0 && a[0] == b[0] && a.drop_first() == b.drop_first() {
            assert(a =~= seq![a[0]] + a.drop_first());
            assert(b =~= seq![b[0]] + b.drop_first());
        }
    }
}

pub proof fn lemma_parts_before_strict_total(
    a: Seq<Seq<char>>,
    b: Seq<Seq<char>>,
    c: Seq<Seq<char>>,
)
    ensures
        !parts_before(a, a),
        parts_before(a, b) ==> !parts_before(b, a),
        parts_before(a, b) && parts_before(b, c) ==> parts_before(a, c),
        a != b ==> parts_before(a, b) || parts_before(b, a),
    decreases a.len(),
{
    if a.len() == 0 && b.len() == 0 {
        assert(a =~= b);
    }
    if a.len() > 0 {
        lemma_parts_before_strict_total(a.drop_first(), b.drop_first(), c.drop_first());
        if b.len() > 0 && c.len() > 0 {
            lemma_chars_before_strict_total(a[0], b[0], c[0]);
            lemma_chars_before_strict_total(b[0], c[0], a[0]);
            lemma_chars_before_strict_total(a[0], c[0], b[0]);
        } else if b.len() > 0 {
            lemma_chars_before_strict_total(a[0], b[0], a[0]);
        }
        if b.len() > 0 && a[0] == b[0] && a.drop_first() == b.drop_first() {
            assert(a =~= seq![a[0]] + a.drop_first());
            assert(b =~= seq![b[0]] + b.drop_first());
        }
    }
}

/// The key of an item: a score and a list of text parts.
#[derive(Debug)]
pub struct SortKey {
    pub score: usize,
    pub parts: Vec<Vec<char>>,
}

/// The value a key holds.
pub open spec fn key_view(k: SortKey) -> (int, Seq<Seq<char>>) {
    (k.score as int, views(k.parts@))
}

/// The values of a list of keys.
pub open spec fn key_views(ks: Seq<SortKey>) -> Seq<(int, Seq<Seq<char>>)> {
    ks.map_values(|k: SortKey| key_view(k))
}

/// Key `a` comes before key `b`: a higher score, or the same score and
/// parts that come first.
pub open spec fn key_before(a: (int, Seq<Seq<char>>), b: (int, Seq<Seq<char>>)) -> bool {
    a.0 > b.0 || (a.0 == b.0 && parts_before(a.1, b.1))
}

pub proof fn lemma_key_before_strict_total(
    a: (int, Seq<Seq<char>>),
    b: (int, Seq<Seq<char>>),
    c: (int, Seq<Seq<char>>),
)
    ensures
        !key_before(a, a),
        key_before(a, b) ==> !key_before(b, a),
        key_before(a, b) && key_before(b, c) ==> key_before(a, c),
        a != b ==> key_before(a, b) || key_before(b, a),
{
    lemma_parts_before_strict_total(a.1, b.1, c.1);
    lemma_parts_before_strict_total(b.1, a.1, c.1);
    lemma_parts_before_strict_total(a.1, a.1, a.1);
}

/// Item `i` comes before item `j` in a stable sort by key: its key comes
/// first, or the keys are equal and it came first.
pub open spec fn ranks_before(keys: Seq<(int, Seq<Seq<char>>)>, i: int, j: int) -> bool {
    key_before(keys[i], keys[j]) || (keys[i] == keys[j] && i < j)
}

/// `o` lists the indices of `keys` in the order of a stable sort by key.
pub open spec fn is_ranking(keys: Seq<(int, Seq<Seq<char>>)>, o: Seq<usize>) -> bool {
    &&& o.len() == keys.len()
    &&& forall|k: int| 0 <= k < o.len() ==> o[k] < keys.len()
    &&& forall|k: int, l: int|
        0 <= k < l < o.len() ==> ranks_before(keys, #[trigger] o[k] as int, #[trigger] o[l] as int)
}

/// A ranking lists each index once.
pub proof fn lemma_ranking_distinct(keys: Seq<(int, Seq<Seq<char>>)>, o: Seq<usize>, k: int, l: int)
    requires
        is_ranking(keys, o),
        0 <= k < o.len(),
        0 <= l < o.len(),
        k != l,
    ensures
        o[k] != o[l],
{
    lemma_key_before_strict_total(keys[o[k] as int], keys[o[k] as int], keys[o[k] as int]);
    if k < l {
        assert(ranks_before(keys, o[k] as int, o[l] as int));
    } else {
        assert(ranks_before(keys, o[l] as int, o[k] as int));
    }
}

fn chars_before_exec(a: &Vec<char>, b: &Vec<char>) -> (r: bool)
    ensures
        r == chars_before(a@, b@),
{
    let mut i: usize = 0;
    assert(a@.skip(0) =~= a@);
    assert(b@.skip(0) =~= b@);
    while i < a.len() && i < b.len() && a[i] == b[i]
        invariant
            i <= a@.len(),
            i <= b@.len(),
            chars_before(a@, b@) == chars_before(a@.skip(i as int), b@.skip(i as int)),
        decreases a@.len() - i,
    {
        assert(a@.skip(i as int).drop_first() =~= a@.skip(i + 1));
        assert(b@.skip(i as int).drop_first() =~= b@.skip(i + 1));
        i = i + 1;
    }
    if i == a.len() {
        i < b.len()
    } else if i == b.len() {
        false
    } else {
        a[i] < b[i]
    }
}

fn parts_before_exec(a: &Vec<Vec<char>>, b: &Vec<Vec<char>>) -> (r: bool)
    ensures
        r == parts_before(views(a@), views(b@)),
{
    let ghost va = views(a@);
    let ghost vb = views(b@);
    let mut i: usize = 0;
    assert(va.skip(0) =~= va);
    assert(vb.skip(0) =~= vb);
    while i < a.len() && i < b.len() && !chars_before_exec(&a[i], &b[i]) && !chars_before_exec(
        &b[i],
        &a[i],
    )
        invariant
            i <= a@.len(),
            i <= b@.len(),
            va == views(a@),
            vb == views(b@),
            parts_before(va, vb) == parts_before(va.skip(i as int), vb.skip(i as int)),
        decreases a@.len() - i,
    {
        proof {
            lemma_chars_before_strict_total(va[i as int], vb[i as int], va[i as int]);
        }
        assert(va.skip(i as int).drop_first() =~= va.skip(i + 1));
        assert(vb.skip(i as int).drop_first() =~= vb.skip(i + 1));
        i = i + 1;
    }
    if i == a.len() {
        i < b.len()
    } else if i == b.len() {
        false
    } else {
        proof {
            lemma_chars_before_strict_total(va[i as int], vb[i as int], va[i as int]);
        }
        chars_before_exec(&a[i], &b[i])
    }
}

/// Decides `key_before`.
pub fn key_before_exec(a: &SortKey, b: &SortKey) -> (r: bool)
    ensures
        r == key_before(key_view(*a), key_view(*b)),
{
    if a.score != b.score {
        a.score > b.score
    } else {
        parts_before_exec(&a.parts, &b.parts)
    }
}

/// The order in which a stable sort by key lists the items with keys `keys`.
pub fn rank_order(keys: &Vec<SortKey>) -> (o: Vec<usize>)
    ensures
        is_ranking(key_views(keys@), o@),
{
    let ghost ks = key_views(keys@);
    let n = keys.len();
    let mut o: Vec<usize> = Vec::new();
    let mut i: usize = 0;
    while i < n
        invariant
            i <= n == keys@.len() == ks.len(),
            ks == key_views(keys@),
            is_ranking(ks.take(i as int), o@),
            forall|k: int| 0 <= k < o@.len() ==> o@[k] < i,
        decreases n - i,
    {
        let mut j: usize = o.len();
        while j > 0 && key_before_exec(&keys[i], &keys[o[j - 1]])
            invariant
                i < n == keys@.len() == ks.len(),
                ks == key_views(keys@),
                j <= o@.len() == i,
                forall|k: int| 0 <= k < o@.len() ==> o@[k] < i,
                forall|k: int| j <= k < o@.len() ==> key_before(ks[i as int], ks[o@[k] as int]),
            decreases j,
        {
            j = j - 1;
        }
        proof {
            // Every index left of `j` ranks before `i`; every index from `j` on
            // ranks after it.
            assert forall|k: int| 0 <= k < j implies ranks_before(ks, o@[k] as int, i as int) by {
                let e = o@[j - 1] as int;
                let f = o@[k] as int;
                lemma_key_before_strict_total(ks[i as int], ks[e], ks[f]);
                lemma_key_before_strict_total(ks[f], ks[e], ks[i as int]);
                lemma_key_before_strict_total(ks[e], ks[i as int], ks[f]);
                if k < j - 1 {
                    assert(ranks_before(ks.take(i as int), o@[k] as int, o@[j - 1] as int));
                }
            }
        }
        let ghost before = o@;
        o.insert(j, i);
        proof {
            assert forall|k: int, l: int|
                0 <= k < l < o@.len() implies ranks_before(
                ks.take(i + 1),
                #[trigger] o@[k] as int,
                #[trigger] o@[l] as int,
            ) by {
                if l < j {
                    assert(ranks_before(ks.take(i as int), before[k] as int, before[l] as int));
                } else if l == j {
                    assert(ranks_before(ks, before[k] as int, i as int));
                } else if k == j {
                    assert(key_before(ks[i as int], ks[before[l - 1] as int]));
                } else if k < j {
                    assert(ranks_before(ks.take(i as int), before[k] as int, before[l - 1] as int));
                } else {
                    assert(ranks_before(ks.take(i as int), before[k - 1] as int, before[l - 1] as int));
                }
            }
        }
        i = i + 1;
    }
    assert(ks.take(n as int) =~= ks);
    o
}

/// For two different items, exactly one ranks before the other.
pub proof fn lemma_ranks_before_strict(keys: Seq<(int, Seq<Seq<char>>)>, i: int, j: int)
    requires
        i != j,
    ensures
        ranks_before(keys, i, j) != ranks_before(keys, j, i),
{
    lemma_key_before_strict_total(keys[i], keys[j], keys[i]);
    lemma_key_before_strict_total(keys[j], keys[i], keys[j]);
}

/// A ranking lists every index.
pub proof fn lemma_ranking_covers(keys: Seq<(int, Seq<Seq<char>>)>, o: Seq<usize>, v: int)
    requires
        is_ranking(keys, o),
        0 <= v < keys.len(),
    ensures
        exists|k: int| 0 <= k < o.len() && o[k] as int == v,
{
    let oi = o.map_values(|x: usize| x as int);
    assert forall|i: int, j: int| 0 <= i < oi.len() && 0 <= j < oi.len() && i != j implies oi[i]
        != oi[j] by {
        lemma_ranking_distinct(keys, o, i, j);
    }
    assert(oi.no_duplicates());
    oi.unique_seq_to_set();
    vstd::set_lib::lemma_int_range(0, keys.len() as int);
    let range = vstd::set_lib::set_int_range(0, keys.len() as int);
    assert(oi.to_set().subset_of(range)) by {
        assert forall|x: int| oi.to_set().contains(x) implies range.contains(x) by {
            assert(oi.contains(x));
            let k = choose|k: int| 0 <= k < oi.len() && oi[k] == x;
            assert(o[k] < keys.len());
        }
    }
    if !oi.to_set().contains(v) {
        oi.to_set().lemma_subset_not_in_lt(range, v);
        assert(false);
    }
    assert(oi.contains(v));
    let k = choose|k: int| 0 <= k < oi.len() && oi[k] == v;
    assert(o[k] as int == v);
}

proof fn lemma_rankings_agree_upto(
    keys: Seq<(int, Seq<Seq<char>>)>,
    o1: Seq<usize>,
    o2: Seq<usize>,
    k: int,
)
    requires
        is_ranking(keys, o1),
        is_ranking(keys, o2),
        0 <= k < o1.len(),
    ensures
        forall|j: int| 0 <= j <= k ==> o1[j] == o2[j],
    decreases k,
{
    if k > 0 {
        lemma_rankings_agree_upto(keys, o1, o2, k - 1);
    }
    let x = o1[k] as int;
    let y = o2[k] as int;
    if x != y {
        lemma_ranks_before_strict(keys, x, y);
        lemma_ranking_covers(keys, o1, y);
        lemma_ranking_covers(keys, o2, x);
        let p = choose|p: int| 0 <= p < o1.len() && o1[p] as int == y;
        let q = choose|q: int| 0 <= q < o2.len() && o2[q] as int == x;
        if ranks_before(keys, x, y) {
            // `x` comes before `y`, so `x` stands before position `k` in
            // `o2`, where `o1` and `o2` agree: `x` would stand twice in `o1`.
            if q > k {
                assert(ranks_before(keys, o2[k] as int, o2[q] as int));
            }
            assert(q != k);
            assert(o1[q] == o2[q]);
            lemma_ranking_distinct(keys, o1, q, k);
        } else {
            if p > k {
                assert(ranks_before(keys, o1[k] as int, o1[p] as int));
            }
            assert(p != k);
            assert(o1[p] == o2[p]);
            lemma_ranking_distinct(keys, o2, p, k);
        }
    }
}

/// There is only one ranking of a list of keys: a stable sort has one
/// result.
pub proof fn law_ranking_unique(keys: Seq<(int, Seq<Seq<char>>)>, o1: Seq<usize>, o2: Seq<usize>)
    requires
        is_ranking(keys, o1),
        is_ranking(keys, o2),
    ensures
        o1 == o2,
{
    if o1.len() > 0 {
        lemma_rankings_agree_upto(keys, o1, o2, o1.len() - 1);
    }
    assert(o1 =~= o2);
}

} // verus!
