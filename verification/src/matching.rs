//! Which entries of a mode are listed, and in what order: every entry when
//! nothing is typed, else the entries that match the typed text, best first.

use vstd::prelude::*;
use fuzzy_matcher::skim::SkimMatcherV2;
use fuzzy_matcher::FuzzyMatcher;
use crate::entry::{Entry, EntryView, entry_views};

verus! {

/// The score that the skim fuzzy matcher, ignoring case, gives to `choice`
/// for `pattern`, or `None` where `pattern` does not match `choice`.
pub uninterp spec fn skim_score(choice: Seq<char>, pattern: Seq<char>) -> Option<i64>;

/// Calls `fuzzy_matcher::FuzzyMatcher::fuzzy_match` on a matcher built by
/// `SkimMatcherV2::default().ignore_case()`. Trusted: the result is the named
/// score of `choice` for `pattern`, and an empty pattern scores 0 (the crate's
/// `SkimMatcherV2::fuzzy` returns a score of 0 for an empty pattern before
/// any matching). Nothing else about the scores is stated.
#[verifier::external_body]
fn fuzzy_score(choice: &str, pattern: &str) -> (r: Option<i64>)
    ensures
        r == skim_score(choice@, pattern@),
        pattern@.len() == 0 ==> r == Some(0i64),
{
    SkimMatcherV2::default().ignore_case().fuzzy_match(choice, pattern)
}

/// Entry `i` comes before entry `j`: a higher score first, the earlier entry
/// first among equal scores.
pub open spec fn ranks_before(scores: Seq<Option<i64>>, i: int, j: int) -> bool {
    scores[i]->0 > scores[j]->0 || (scores[i]->0 == scores[j]->0 && i < j)
}

/// `r` lists the index of every entry that has a score, once each, best
/// first as `ranks_before` says.
pub open spec fn ranking_of(r: Seq<usize>, scores: Seq<Option<i64>>) -> bool {
    &&& forall|k: int| 0 <= k < r.len() ==> #[trigger] r[k] < scores.len() && scores[r[k] as int] is Some
    &&& forall|i: int| 0 <= i < scores.len() && (#[trigger] scores[i]) is Some ==> r.contains(i as usize)
    &&& forall|a: int, b: int| 0 <= a < b < r.len() ==> ranks_before(scores, #[trigger] r[a] as int, #[trigger] r[b] as int)
}

/// `r` with entry `i` put in its place: after the entries that rank before it.
pub open spec fn rank_insert(r: Seq<usize>, scores: Seq<Option<i64>>, i: usize) -> Seq<usize>
    decreases r.len(),
{
    if r.len() == 0 {
        seq![i]
    } else if ranks_before(scores, r[0] as int, i as int) {
        seq![r[0]] + rank_insert(r.drop_first(), scores, i)
    } else {
        seq![i] + r
    }
}

/// The ranking of the scored entries among the first `n`.
pub open spec fn ranking_upto(scores: Seq<Option<i64>>, n: nat) -> Seq<usize>
    decreases n,
{
    if n == 0 {
        Seq::empty()
    } else if scores[n - 1] is Some {
        rank_insert(ranking_upto(scores, (n - 1) as nat), scores, (n - 1) as usize)
    } else {
        ranking_upto(scores, (n - 1) as nat)
    }
}

/// The ranking of the scored entries, as `ranking_of` describes it.
pub open spec fn ranked(scores: Seq<Option<i64>>) -> Seq<usize> {
    ranking_upto(scores, scores.len())
}

/// `r` ranks the scored entries among the first `n`.
pub open spec fn ranks_prefix(r: Seq<usize>, scores: Seq<Option<i64>>, n: int) -> bool {
    &&& forall|k: int| 0 <= k < r.len() ==> #[trigger] r[k] < n && scores[r[k] as int] is Some
    &&& forall|i: int| 0 <= i < n && (#[trigger] scores[i]) is Some ==> r.contains(i as usize)
    &&& forall|a: int, b: int| 0 <= a < b < r.len() ==> ranks_before(scores, #[trigger] r[a] as int, #[trigger] r[b] as int)
}

proof fn lemma_rank_insert(r: Seq<usize>, scores: Seq<Option<i64>>, i: usize)
    requires
        i < scores.len(),
        scores[i as int] is Some,
        forall|k: int| 0 <= k < r.len() ==> #[trigger] r[k] < i && scores[r[k] as int] is Some,
        forall|a: int, b: int| 0 <= a < b < r.len() ==> ranks_before(scores, #[trigger] r[a] as int, #[trigger] r[b] as int),
    ensures
        forall|k: int| 0 <= k < rank_insert(r, scores, i).len() ==> #[trigger] rank_insert(r, scores, i)[k] <= i && scores[rank_insert(r, scores, i)[k] as int] is Some,
        forall|x: usize| #[trigger] rank_insert(r, scores, i).contains(x) <==> (r.contains(x) || x == i),
        forall|a: int, b: int| 0 <= a < b < rank_insert(r, scores, i).len() ==> ranks_before(scores, #[trigger] rank_insert(r, scores, i)[a] as int, #[trigger] rank_insert(r, scores, i)[b] as int),
    decreases r.len(),
{
    let q = rank_insert(r, scores, i);
    if r.len() == 0 {
        assert(q[0] == i);
    } else if ranks_before(scores, r[0] as int, i as int) {
        let t = r.drop_first();
        assert(forall|k: int| 0 <= k < t.len() ==> #[trigger] t[k] == r[k + 1]);
        lemma_rank_insert(t, scores, i);
        let u = rank_insert(t, scores, i);
        assert(q == seq![r[0]] + u);
        assert forall|k: int| 0 <= k < q.len() implies #[trigger] q[k] <= i && scores[q[k] as int] is Some by {
            if k > 0 {
                assert(q[k] == u[k - 1]);
            }
        }
        assert forall|x: usize| #[trigger] q.contains(x) <==> (r.contains(x) || x == i) by {
            if q.contains(x) {
                let k = choose|k: int| 0 <= k < q.len() && q[k] == x;
                if k > 0 {
                    assert(u[k - 1] == x);
                    assert(u.contains(x));
                    if t.contains(x) {
                        let p = choose|p: int| 0 <= p < t.len() && t[p] == x;
                        assert(r[p + 1] == x);
                    }
                }
            }
            if r.contains(x) {
                let k = choose|k: int| 0 <= k < r.len() && r[k] == x;
                if k > 0 {
                    assert(t[k - 1] == x);
                    assert(t.contains(x));
                    assert(u.contains(x));
                    let p = choose|p: int| 0 <= p < u.len() && u[p] == x;
                    assert(q[p + 1] == x);
                } else {
                    assert(q[0] == x);
                }
            }
            if x == i {
                assert(u.contains(i));
                let p = choose|p: int| 0 <= p < u.len() && u[p] == i;
                assert(q[p + 1] == x);
            }
        }
        assert forall|a: int, b: int| 0 <= a < b < q.len() implies ranks_before(scores, #[trigger] q[a] as int, #[trigger] q[b] as int) by {
            if a == 0 {
                assert(q[b] == u[b - 1]);
                assert(u.contains(u[b - 1]));
                if u[b - 1] != i {
                    assert(t.contains(u[b - 1]));
                    let p = choose|p: int| 0 <= p < t.len() && t[p] == u[b - 1];
                    assert(r[p + 1] == u[b - 1]);
                }
            } else {
                assert(q[a] == u[a - 1]);
                assert(q[b] == u[b - 1]);
            }
        }
    } else {
        assert forall|k: int| 0 <= k < q.len() implies #[trigger] q[k] <= i && scores[q[k] as int] is Some by {
            if k > 0 {
                assert(q[k] == r[k - 1]);
            }
        }
        assert forall|x: usize| #[trigger] q.contains(x) <==> (r.contains(x) || x == i) by {
            if q.contains(x) {
                let k = choose|k: int| 0 <= k < q.len() && q[k] == x;
                if k > 0 {
                    assert(r[k - 1] == x);
                }
            }
            if r.contains(x) {
                let k = choose|k: int| 0 <= k < r.len() && r[k] == x;
                assert(q[k + 1] == x);
            }
            if x == i {
                assert(q[0] == x);
            }
        }
        assert forall|a: int, b: int| 0 <= a < b < q.len() implies ranks_before(scores, #[trigger] q[a] as int, #[trigger] q[b] as int) by {
            if a == 0 {
                assert(q[b] == r[b - 1]);
                assert(ranks_before(scores, r[0] as int, r[b - 1] as int) || b == 1);
            } else {
                assert(q[a] == r[a - 1]);
                assert(q[b] == r[b - 1]);
            }
        }
    }
}

proof fn lemma_ranking_upto(scores: Seq<Option<i64>>, n: nat)
    requires
        n <= scores.len() <= usize::MAX,
    ensures
        ranks_prefix(ranking_upto(scores, n), scores, n as int),
    decreases n,
{
    if n > 0 {
        let m = (n - 1) as nat;
        lemma_ranking_upto(scores, m);
        let r = ranking_upto(scores, m);
        if scores[m as int] is Some {
            lemma_rank_insert(r, scores, m as usize);
            let q = ranking_upto(scores, n);
            assert forall|i: int| 0 <= i < n && (#[trigger] scores[i]) is Some implies q.contains(i as usize) by {
                if i < m {
                    assert(r.contains(i as usize));
                } else {
                    assert(i as usize == m as usize);
                }
            }
        }
    }
}

/// `ranked(scores)` ranks the scored entries.
pub proof fn lemma_ranked_ranks(scores: Seq<Option<i64>>)
    requires
        scores.len() <= usize::MAX,
    ensures
        ranking_of(ranked(scores), scores),
{
    lemma_ranking_upto(scores, scores.len());
}

/// A ranking is determined by the scores: there is at most one, and it is
/// `ranked(scores)`.
pub proof fn lemma_ranking_unique(a: Seq<usize>, b: Seq<usize>, scores: Seq<Option<i64>>)
    requires
        ranking_of(a, scores),
        ranking_of(b, scores),
        scores.len() <= usize::MAX,
    ensures
        a == b,
    decreases a.len(),
{
    if a.len() == 0 {
        if b.len() > 0 {
            assert(scores[b[0] as int] is Some);
            assert(a.contains(b[0]));
        }
        assert(a =~= b);
    } else {
        assert(scores[a[0] as int] is Some);
        assert(b.contains(a[0]));
        let j = choose|j: int| 0 <= j < b.len() && b[j] == a[0];
        assert(scores[b[0] as int] is Some);
        assert(a.contains(b[0]));
        let i = choose|i: int| 0 <= i < a.len() && a[i] == b[0];
        if a[0] != b[0] {
            assert(ranks_before(scores, a[0] as int, a[i] as int));
            assert(ranks_before(scores, b[0] as int, b[j] as int));
        }
        let ta = a.drop_first();
        let tb = b.drop_first();
        let rest = scores;
        assert(forall|k: int| 0 <= k < ta.len() ==> #[trigger] ta[k] == a[k + 1]);
        assert(forall|k: int| 0 <= k < tb.len() ==> #[trigger] tb[k] == b[k + 1]);
        assert forall|x: usize| ta.contains(x) <==> tb.contains(x) by {
            if ta.contains(x) {
                let k = choose|k: int| 0 <= k < ta.len() && ta[k] == x;
                assert(ranks_before(scores, a[0] as int, a[k + 1] as int));
                assert(scores[x as int] is Some);
                assert(b.contains(x));
                let m = choose|m: int| 0 <= m < b.len() && b[m] == x;
                assert(m != 0);
                assert(tb[m - 1] == x);
            }
            if tb.contains(x) {
                let k = choose|k: int| 0 <= k < tb.len() && tb[k] == x;
                assert(ranks_before(scores, b[0] as int, b[k + 1] as int));
                assert(scores[x as int] is Some);
                assert(a.contains(x));
                let m = choose|m: int| 0 <= m < a.len() && a[m] == x;
                assert(m != 0);
                assert(ta[m - 1] == x);
            }
        }
        // The tails rank the scored entries other than the first one.
        let fewer = scores.update(a[0] as int, None);
        assert(ranking_of(ta, fewer)) by {
            assert forall|k: int| 0 <= k < ta.len() implies #[trigger] ta[k] < fewer.len()
                && fewer[ta[k] as int] is Some by {
                assert(ranks_before(scores, a[0] as int, a[k + 1] as int));
            }
            assert forall|x: int| 0 <= x < fewer.len() && (#[trigger] fewer[x]) is Some implies ta.contains(x as usize) by {
                assert(x != a[0] as int);
                assert(a.contains(x as usize));
                let m = choose|m: int| 0 <= m < a.len() && a[m] == x as usize;
                assert(m != 0);
                assert(ta[m - 1] == x as usize);
            }
            assert forall|p: int, q: int| 0 <= p < q < ta.len() implies ranks_before(fewer, #[trigger] ta[p] as int, #[trigger] ta[q] as int) by {
                assert(ranks_before(scores, a[p + 1] as int, a[q + 1] as int));
                assert(ranks_before(scores, a[0] as int, a[p + 1] as int));
                assert(ranks_before(scores, a[0] as int, a[q + 1] as int));
            }
        }
        assert(ranking_of(tb, fewer)) by {
            assert forall|k: int| 0 <= k < tb.len() implies #[trigger] tb[k] < fewer.len()
                && fewer[tb[k] as int] is Some by {
                assert(ranks_before(scores, b[0] as int, b[k + 1] as int));
            }
            assert forall|x: int| 0 <= x < fewer.len() && (#[trigger] fewer[x]) is Some implies tb.contains(x as usize) by {
                assert(ta.contains(x as usize)) by {
                    assert(x != a[0] as int);
                    assert(a.contains(x as usize));
                    let m = choose|m: int| 0 <= m < a.len() && a[m] == x as usize;
                    assert(m != 0);
                    assert(ta[m - 1] == x as usize);
                }
            }
            assert forall|p: int, q: int| 0 <= p < q < tb.len() implies ranks_before(fewer, #[trigger] tb[p] as int, #[trigger] tb[q] as int) by {
                assert(ranks_before(scores, b[p + 1] as int, b[q + 1] as int));
                assert(ranks_before(scores, b[0] as int, b[p + 1] as int));
                assert(ranks_before(scores, b[0] as int, b[q + 1] as int));
            }
        }
        lemma_ranking_unique(ta, tb, fewer);
        assert(a =~= b) by {
            assert forall|k: int| 0 <= k < a.len() implies a[k] == b[k] by {
                if k > 0 {
                    assert(a[k] == ta[k - 1]);
                    assert(b[k] == tb[k - 1]);
                }
            }
        }
    }
}

/// A list that ranks the scores is `ranked(scores)`.
pub proof fn lemma_ranked(r: Seq<usize>, scores: Seq<Option<i64>>)
    requires
        ranking_of(r, scores),
        scores.len() <= usize::MAX,
    ensures
        r == ranked(scores),
{
    lemma_ranked_ranks(scores);
    lemma_ranking_unique(r, ranked(scores), scores);
}

/// Whether entry `j` has a score of at least `s`.
fn scores_at_least(scores: &Vec<Option<i64>>, j: usize, s: i64) -> (b: bool)
    requires
        j < scores@.len(),
        scores@[j as int] is Some,
    ensures
        b == (scores@[j as int]->0 >= s),
{
    match scores[j] {
        Some(t) => t >= s,
        None => false,
    }
}

/// The indices of the entries that have a score, best score first and, among
/// equal scores, in the order of the entries.
pub fn rank_scores(scores: &Vec<Option<i64>>) -> (r: Vec<usize>)
    ensures
        ranking_of(r@, scores@),
        r@ == ranked(scores@),
{
    let r = insertion_rank(scores);
    proof {
        lemma_ranked(r@, scores@);
    }
    r
}

/// Ranks by inserting each scored entry after those that rank before it.
fn insertion_rank(scores: &Vec<Option<i64>>) -> (r: Vec<usize>)
    ensures
        ranking_of(r@, scores@),
        scores@.len() <= usize::MAX,
{
    let n = scores.len();
    let mut r: Vec<usize> = Vec::new();
    let mut i: usize = 0;
    while i < n
        invariant
            n == scores@.len(),
            i <= n,
            forall|k: int| 0 <= k < r@.len() ==> #[trigger] r@[k] < i && scores@[r@[k] as int] is Some,
            forall|j: int| 0 <= j < i && (#[trigger] scores@[j]) is Some ==> r@.contains(j as usize),
            forall|a: int, b: int| 0 <= a < b < r@.len() ==> ranks_before(scores@, #[trigger] r@[a] as int, #[trigger] r@[b] as int),
        decreases n - i,
    {
        match scores[i] {
            Some(s) => {
                let mut p: usize = 0;
                while p < r.len() && scores_at_least(scores, r[p], s)
                    invariant
                        n == scores@.len(),
                        i < n,
                        scores@[i as int] == Some(s),
                        p <= r@.len(),
                        forall|k: int| 0 <= k < r@.len() ==> #[trigger] r@[k] < i && scores@[r@[k] as int] is Some,
                        forall|k: int| 0 <= k < p ==> ranks_before(scores@, #[trigger] r@[k] as int, i as int),
                    decreases r@.len() - p,
                {
                    p = p + 1;
                }
                let ghost before = r@;
                r.insert(p, i);
                proof {
                    assert(r@ =~= before.insert(p as int, i));
                    assert forall|k: int| 0 <= k < r@.len() implies #[trigger] r@[k] < i + 1
                        && scores@[r@[k] as int] is Some by {
                        if k < p {
                            assert(r@[k] == before[k]);
                        } else if k > p {
                            assert(r@[k] == before[k - 1]);
                        }
                    }
                    assert forall|j: int| 0 <= j < i + 1 && (#[trigger] scores@[j]) is Some implies r@.contains(j as usize) by {
                        if j == i {
                            assert(r@[p as int] == i);
                        } else {
                            let k = choose|k: int| 0 <= k < before.len() && before[k] == j as usize;
                            if k < p {
                                assert(r@[k] == before[k]);
                            } else {
                                assert(r@[k + 1] == before[k]);
                            }
                        }
                    }
                    assert forall|a: int, b: int| 0 <= a < b < r@.len() implies ranks_before(scores@, #[trigger] r@[a] as int, #[trigger] r@[b] as int) by {
                        if b < p {
                            assert(r@[a] == before[a]);
                            assert(r@[b] == before[b]);
                        } else if b == p {
                            assert(r@[a] == before[a]);
                        } else if a < p {
                            assert(r@[a] == before[a]);
                            assert(r@[b] == before[b - 1]);
                            assert(ranks_before(scores@, before[a] as int, i as int));
                            assert(!ranks_before(scores@, before[p as int] as int, i as int));
                        } else if a == p {
                            assert(r@[b] == before[b - 1]);
                            assert(!ranks_before(scores@, before[p as int] as int, i as int));
                        } else {
                            assert(r@[a] == before[a - 1]);
                            assert(r@[b] == before[b - 1]);
                        }
                    }
                }
            },
            None => {},
        }
        i = i + 1;
    }
    r
}

/// The indices `0..len`, in order.
pub fn all_indices(len: usize) -> (r: Vec<usize>)
    ensures
        r@.len() == len,
        forall|k: int| 0 <= k < len ==> #[trigger] r@[k] == k,
{
    let mut r: Vec<usize> = Vec::new();
    let mut i: usize = 0;
    while i < len
        invariant
            i <= len,
            r@.len() == i,
            forall|k: int| 0 <= k < i ==> #[trigger] r@[k] == k,
        decreases len - i,
    {
        r.push(i);
        i = i + 1;
    }
    r
}

/// The matches of a mode when nothing is typed: every entry, in order.
pub fn default_matches(entries: &Vec<Entry>) -> (r: Vec<usize>)
    ensures
        r@.len() == entries@.len(),
        forall|k: int| 0 <= k < entries@.len() ==> #[trigger] r@[k] == k,
{
    all_indices(entries.len())
}

/// The score of every entry's display name for `pattern`.
pub open spec fn entry_scores(entries: Seq<EntryView>, pattern: Seq<char>) -> Seq<Option<i64>> {
    Seq::new(entries.len(), |i: int| skim_score(entries[i].display_name, pattern))
}

/// The matches of a mode for the typed text `input`: the entries whose
/// display name matches it, best score first.
pub fn get_matches(entries: &Vec<Entry>, input: &str) -> (r: Vec<usize>)
    ensures
        ranking_of(r@, entry_scores(entry_views(entries@), input@)),
        r@ == ranked(entry_scores(entry_views(entries@), input@)),
{
    let mut scores: Vec<Option<i64>> = Vec::new();
    let mut i: usize = 0;
    while i < entries.len()
        invariant
            i <= entries@.len(),
            scores@ == entry_scores(entry_views(entries@), input@).take(i as int),
        decreases entries@.len() - i,
    {
        let s = fuzzy_score(entries[i].display_name.as_str(), input);
        scores.push(s);
        assert(scores@ =~= entry_scores(entry_views(entries@), input@).take(i + 1));
        i = i + 1;
    }
    assert(scores@ =~= entry_scores(entry_views(entries@), input@));
    rank_scores(&scores)
}

/// Searching lists exactly the entries whose whole display name the skim
/// matcher matches against the pattern, each once, a higher score first and,
/// among equal scores, the earlier entry first.
pub proof fn lemma_search_lists_matching_names(entries: Seq<EntryView>, pattern: Seq<char>)
    requires
        entries.len() <= usize::MAX,
    ensures
        ({
            let r = ranked(entry_scores(entries, pattern));
            &&& forall|i: int| 0 <= i < entries.len() ==> (r.contains(i as usize) <==> (
                #[trigger] skim_score(entries[i].display_name, pattern)) is Some)
            &&& forall|k: int| 0 <= k < r.len() ==> (#[trigger] r[k] as int) < entries.len()
                && skim_score(entries[r[k] as int].display_name, pattern) is Some
            &&& forall|a: int, b: int| 0 <= a < b < r.len() ==> {
                let x = #[trigger] r[a] as int;
                let y = #[trigger] r[b] as int;
                ||| skim_score(entries[x].display_name, pattern)->0 > skim_score(entries[y].display_name, pattern)->0
                ||| (skim_score(entries[x].display_name, pattern)->0 == skim_score(entries[y].display_name, pattern)->0 && x < y)
            }
        }),
{
    let scores = entry_scores(entries, pattern);
    let r = ranked(scores);
    lemma_ranked_ranks(scores);
    assert forall|i: int| 0 <= i < entries.len() implies (r.contains(i as usize) <==> (
        #[trigger] skim_score(entries[i].display_name, pattern)) is Some) by {
        assert(scores[i] == skim_score(entries[i].display_name, pattern));
        if r.contains(i as usize) {
            let k = choose|k: int| 0 <= k < r.len() && r[k] == i as usize;
            assert(scores[r[k] as int] is Some);
        }
    }
    assert forall|a: int, b: int| 0 <= a < b < r.len() implies {
        let x = #[trigger] r[a] as int;
        let y = #[trigger] r[b] as int;
        ||| skim_score(entries[x].display_name, pattern)->0 > skim_score(entries[y].display_name, pattern)->0
        ||| (skim_score(entries[x].display_name, pattern)->0 == skim_score(entries[y].display_name, pattern)->0 && x < y)
    } by {
        assert(ranks_before(scores, r[a] as int, r[b] as int));
        assert(scores[r[a] as int] == skim_score(entries[r[a] as int].display_name, pattern));
        assert(scores[r[b] as int] == skim_score(entries[r[b] as int].display_name, pattern));
    }
}

} // verus!
