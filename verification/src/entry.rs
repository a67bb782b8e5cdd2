//! Launcher entries: what a mode lists, how entries are ordered, merged and
//! ranked by use.

use vstd::prelude::*;
use vstd::multiset::Multiset;
use crate::text::{
    compare_text, lemma_text_order_antisymmetric, lemma_text_order_equal,
    lemma_text_order_transitive, text_order,
};

verus! {

broadcast use vstd::seq_lib::group_to_multiset_ensures;

/// An entry as a mathematical value.
pub struct EntryView {
    pub weight: u32,
    pub display_name: Seq<char>,
    pub exec_line: Option<Seq<char>>,
    pub search_terms: Option<Seq<char>>,
}

/// One item that a mode lists.
#[derive(Debug)]
pub struct Entry {
    /// How often the entry was launched.
    pub weight: u32,
    /// The name shown and searched.
    pub display_name: String,
    /// The command line of a desktop entry.
    pub exec_line: Option<String>,
    /// Extra words that describe the entry.
    pub search_terms: Option<String>,
}

/// The text of an optional string.
pub open spec fn optional_text(o: Option<String>) -> Option<Seq<char>> {
    match o {
        Some(s) => Some(s@),
        None => None,
    }
}

impl View for Entry {
    type V = EntryView;

    open spec fn view(&self) -> EntryView {
        EntryView {
            weight: self.weight,
            display_name: self.display_name@,
            exec_line: optional_text(self.exec_line),
            search_terms: optional_text(self.search_terms),
        }
    }
}

/// The views of a sequence of entries.
pub open spec fn entry_views(s: Seq<Entry>) -> Seq<EntryView> {
    s.map_values(|e: Entry| e@)
}

fn clone_text(o: &Option<String>) -> (r: Option<String>)
    ensures
        optional_text(r) == optional_text(*o),
{
    match o {
        Some(s) => Some(s.clone()),
        None => None,
    }
}

impl Clone for Entry {
    fn clone(&self) -> (r: Self)
        ensures
            r@ == self@,
    {
        Entry {
            weight: self.weight,
            display_name: self.display_name.clone(),
            exec_line: clone_text(&self.exec_line),
            search_terms: clone_text(&self.search_terms),
        }
    }
}

/// Order of optional texts: absent first, then by `text_order`.
pub open spec fn optional_text_order(a: Option<Seq<char>>, b: Option<Seq<char>>) -> int {
    match (a, b) {
        (None, None) => 0,
        (None, Some(_)) => -1,
        (Some(_), None) => 1,
        (Some(x), Some(y)) => text_order(x, y),
    }
}

/// The order of entries: by weight, then display name, then command line,
/// then search terms, field by field (-1, 0 or 1).
pub open spec fn entry_order(a: EntryView, b: EntryView) -> int {
    if a.weight < b.weight {
        -1
    } else if a.weight > b.weight {
        1
    } else if text_order(a.display_name, b.display_name) != 0 {
        text_order(a.display_name, b.display_name)
    } else if optional_text_order(a.exec_line, b.exec_line) != 0 {
        optional_text_order(a.exec_line, b.exec_line)
    } else {
        optional_text_order(a.search_terms, b.search_terms)
    }
}

proof fn lemma_optional_text_order(a: Option<Seq<char>>, b: Option<Seq<char>>)
    ensures
        optional_text_order(a, b) == -optional_text_order(b, a),
        -1 <= optional_text_order(a, b) <= 1,
        (optional_text_order(a, b) == 0) == (a == b),
{
    if let (Some(x), Some(y)) = (a, b) {
        lemma_text_order_antisymmetric(x, y);
        lemma_text_order_equal(x, y);
    }
}

proof fn lemma_optional_text_order_transitive(
    a: Option<Seq<char>>,
    b: Option<Seq<char>>,
    c: Option<Seq<char>>,
)
    requires
        optional_text_order(a, b) < 0,
        optional_text_order(b, c) < 0,
    ensures
        optional_text_order(a, c) < 0,
{
    if let (Some(x), Some(y), Some(z)) = (a, b, c) {
        lemma_text_order_transitive(x, y, z);
    }
}

/// Swapping two entries negates their order; the order is -1, 0 or 1 and is
/// 0 exactly for equal entries.
pub proof fn lemma_entry_order_antisymmetric(a: EntryView, b: EntryView)
    ensures
        entry_order(a, b) == -entry_order(b, a),
        -1 <= entry_order(a, b) <= 1,
        (entry_order(a, b) == 0) == (a == b),
{
    lemma_text_order_antisymmetric(a.display_name, b.display_name);
    lemma_text_order_equal(a.display_name, b.display_name);
    lemma_optional_text_order(a.exec_line, b.exec_line);
    lemma_optional_text_order(a.search_terms, b.search_terms);
}

/// The order of entries is transitive.
pub proof fn lemma_entry_order_transitive(a: EntryView, b: EntryView, c: EntryView)
    requires
        entry_order(a, b) < 0,
        entry_order(b, c) < 0,
    ensures
        entry_order(a, c) < 0,
{
    lemma_entry_order_antisymmetric(a, b);
    lemma_entry_order_antisymmetric(b, c);
    lemma_entry_order_antisymmetric(a, c);
    lemma_text_order_antisymmetric(a.display_name, b.display_name);
    lemma_text_order_antisymmetric(b.display_name, c.display_name);
    lemma_text_order_antisymmetric(a.display_name, c.display_name);
    lemma_text_order_equal(a.display_name, b.display_name);
    lemma_text_order_equal(b.display_name, c.display_name);
    lemma_text_order_equal(a.display_name, c.display_name);
    lemma_optional_text_order(a.exec_line, b.exec_line);
    lemma_optional_text_order(b.exec_line, c.exec_line);
    lemma_optional_text_order(a.exec_line, c.exec_line);
    lemma_optional_text_order(a.search_terms, b.search_terms);
    lemma_optional_text_order(b.search_terms, c.search_terms);
    lemma_optional_text_order(a.search_terms, c.search_terms);
    if a.weight == b.weight && b.weight == c.weight {
        if text_order(a.display_name, b.display_name) < 0 && text_order(
            b.display_name,
            c.display_name,
        ) < 0 {
            lemma_text_order_transitive(a.display_name, b.display_name, c.display_name);
        }
        if a.display_name == b.display_name && b.display_name == c.display_name {
            if optional_text_order(a.exec_line, b.exec_line) < 0 && optional_text_order(b.exec_line, c.exec_line) < 0 {
                lemma_optional_text_order_transitive(a.exec_line, b.exec_line, c.exec_line);
            }
            if a.exec_line == b.exec_line && b.exec_line == c.exec_line {
                lemma_optional_text_order_transitive(a.search_terms, b.search_terms, c.search_terms);
            }
        }
    }
}

fn compare_optional_text(a: &Option<String>, b: &Option<String>) -> (r: i8)
    ensures
        r as int == optional_text_order(optional_text(*a), optional_text(*b)),
{
    match (a, b) {
        (None, None) => 0,
        (None, Some(_)) => -1,
        (Some(_), None) => 1,
        (Some(x), Some(y)) => compare_text(x.as_str(), y.as_str()),
    }
}

/// Three-way comparison of two entries, as `entry_order`.
pub fn compare_entries(a: &Entry, b: &Entry) -> (r: i8)
    ensures
        r as int == entry_order(a@, b@),
{
    if a.weight < b.weight {
        return -1;
    }
    if a.weight > b.weight {
        return 1;
    }
    let by_name = compare_text(a.display_name.as_str(), b.display_name.as_str());
    if by_name != 0 {
        return by_name;
    }
    let by_exec = compare_optional_text(&a.exec_line, &b.exec_line);
    if by_exec != 0 {
        return by_exec;
    }
    compare_optional_text(&a.search_terms, &b.search_terms)
}

/// Whether two entries are equal in every field.
pub fn same_entry(a: &Entry, b: &Entry) -> (r: bool)
    ensures
        r == (a@ == b@),
{
    let c = compare_entries(a, b);
    proof {
        lemma_entry_order_antisymmetric(a@, b@);
    }
    c == 0
}

/// Whether `entries` holds an entry equal to `entry`.
pub fn contains_entry(entries: &Vec<Entry>, entry: &Entry) -> (r: bool)
    ensures
        r == entry_views(entries@).contains(entry@),
{
    let mut i: usize = 0;
    while i < entries.len()
        invariant
            i <= entries.len(),
            forall|k: int| 0 <= k < i ==> entries@[k]@ != entry@,
        decreases entries.len() - i,
    {
        if same_entry(&entries[i], entry) {
            assert(entry_views(entries@)[i as int] == entry@);
            return true;
        }
        i = i + 1;
    }
    assert forall|k: int| 0 <= k < entry_views(entries@).len() implies entry_views(entries@)[k]
        != entry@ by {
        assert(entry_views(entries@)[k] == entries@[k]@);
    }
    false
}

/// Every entry comes strictly before the ones after it.
pub open spec fn strictly_sorted(s: Seq<EntryView>) -> bool {
    forall|i: int, j: int| 0 <= i < j < s.len() ==> entry_order(#[trigger] s[i], #[trigger] s[j]) < 0
}

/// `r` lists the entries of `items`, each once, in entry order.
pub open spec fn sorted_set_of(r: Seq<EntryView>, items: Seq<EntryView>) -> bool {
    &&& strictly_sorted(r)
    &&& forall|x: EntryView| #[trigger] r.contains(x) <==> items.contains(x)
}

/// Puts `entry` into a strictly sorted list, unless an equal entry is there.
fn insert_sorted(sorted: &mut Vec<Entry>, entry: Entry)
    requires
        strictly_sorted(entry_views(old(sorted)@)),
    ensures
        strictly_sorted(entry_views(final(sorted)@)),
        forall|x: EntryView| #[trigger]
            entry_views(final(sorted)@).contains(x) <==> (entry_views(old(sorted)@).contains(x) || x
                == entry@),
{
    let ghost before = entry_views(sorted@);
    let mut p: usize = 0;
    while p < sorted.len() && compare_entries(&sorted[p], &entry) < 0
        invariant
            p <= sorted.len(),
            entry_views(sorted@) == before,
            forall|k: int| 0 <= k < p ==> entry_order(#[trigger] before[k], entry@) < 0,
        decreases sorted.len() - p,
    {
        p = p + 1;
    }
    if p < sorted.len() && compare_entries(&sorted[p], &entry) == 0 {
        proof {
            lemma_entry_order_antisymmetric(before[p as int], entry@);
            assert(before[p as int] == entry@);
            assert forall|x: EntryView| #[trigger]
                before.contains(x) <==> (before.contains(x) || x == entry@) by {
                if x == entry@ {
                    assert(before[p as int] == x);
                }
            }
        }
        return ;
    }
    let ghost e = entry@;
    sorted.insert(p, entry);
    proof {
        let after = entry_views(sorted@);
        assert(after =~= before.insert(p as int, e));
        assert forall|j: int| p < j < after.len() implies entry_order(e, #[trigger] after[j]) < 0 by {
            lemma_entry_order_antisymmetric(before[p as int], e);
            if j > p + 1 {
                lemma_entry_order_transitive(e, before[p as int], before[j - 1]);
            }
        }
        assert forall|i: int, j: int| 0 <= i < j < after.len() implies entry_order(
            #[trigger] after[i],
            #[trigger] after[j],
        ) < 0 by {
            if i < p && j < p {
                assert(after[i] == before[i]);
                assert(after[j] == before[j]);
            } else if i < p && j == p {
            } else if i < p && j > p {
                lemma_entry_order_transitive(before[i], e, after[j]);
            } else if i == p {
            } else {
                assert(after[i] == before[i - 1]);
                assert(after[j] == before[j - 1]);
            }
        }
        assert forall|x: EntryView| #[trigger]
            after.contains(x) <==> (before.contains(x) || x == e) by {
            if after.contains(x) {
                let k = choose|k: int| 0 <= k < after.len() && after[k] == x;
                if k < p {
                    assert(before[k] == x);
                } else if k > p {
                    assert(before[k - 1] == x);
                }
            }
            if before.contains(x) {
                let k = choose|k: int| 0 <= k < before.len() && before[k] == x;
                if k < p {
                    assert(after[k] == x);
                } else {
                    assert(after[k + 1] == x);
                }
            }
            if x == e {
                assert(after[p as int] == x);
            }
        }
    }
}

/// Puts every entry of `items` into a strictly sorted list, once each.
fn insert_all(sorted: &mut Vec<Entry>, items: Vec<Entry>)
    requires
        strictly_sorted(entry_views(old(sorted)@)),
    ensures
        strictly_sorted(entry_views(final(sorted)@)),
        forall|x: EntryView| #[trigger]
            entry_views(final(sorted)@).contains(x) <==> (entry_views(old(sorted)@).contains(x)
                || entry_views(items@).contains(x)),
{
    let ghost start = entry_views(sorted@);
    let ghost all = entry_views(items@);
    let mut items = items;
    while items.len() > 0
        invariant
            strictly_sorted(entry_views(sorted@)),
            all.len() == items@.len() + (all.len() - items@.len()),
            items@.len() <= all.len(),
            entry_views(items@) == all.take(items@.len() as int),
            forall|x: EntryView| #[trigger]
                entry_views(sorted@).contains(x) <==> (start.contains(x) || all.skip(
                    items@.len() as int,
                ).contains(x)),
        decreases items.len(),
    {
        let ghost n = items@.len();
        let ghost before = entry_views(sorted@);
        let e = items.pop().unwrap();
        proof {
            assert(entry_views(items@) =~= all.take(n - 1));
            assert(e@ == all[n - 1]) by {
                assert(all.take(n as int)[n - 1] == all[n - 1]);
            }
        }
        let ghost ev = e@;
        insert_sorted(sorted, e);
        proof {
            let longer = all.skip(n - 1);
            let shorter = all.skip(n as int);
            assert(longer =~= seq![ev] + shorter);
            assert forall|x: EntryView| #[trigger]
                entry_views(sorted@).contains(x) <==> (start.contains(x) || longer.contains(x)) by {
                if shorter.contains(x) {
                    let k = choose|k: int| 0 <= k < shorter.len() && #[trigger] shorter[k] == x;
                    assert(longer[k + 1] == x);
                }
                if longer.contains(x) {
                    let k = choose|k: int| 0 <= k < longer.len() && #[trigger] longer[k] == x;
                    if k > 0 {
                        assert(shorter[k - 1] == x);
                    }
                }
                if x == ev {
                    assert(longer[0] == x);
                }
            }
        }
    }
    assert(all.skip(0) =~= all);
}

/// `s` with `x` put in its place in entry order, unless it is there.
pub open spec fn insert_in_order(s: Seq<EntryView>, x: EntryView) -> Seq<EntryView>
    decreases s.len(),
{
    if s.len() == 0 {
        seq![x]
    } else if entry_order(x, s[0]) < 0 {
        seq![x] + s
    } else if entry_order(x, s[0]) == 0 {
        s
    } else {
        seq![s[0]] + insert_in_order(s.drop_first(), x)
    }
}

/// The entries of `items`, in entry order, each once.
pub open spec fn sorted_entries(items: Seq<EntryView>) -> Seq<EntryView>
    decreases items.len(),
{
    if items.len() == 0 {
        Seq::empty()
    } else {
        insert_in_order(sorted_entries(items.drop_last()), items.last())
    }
}

/// The entries of `a` and `b` together, in entry order, each once.
pub open spec fn merged(a: Seq<EntryView>, b: Seq<EntryView>) -> Seq<EntryView> {
    sorted_entries(a + b)
}

proof fn lemma_insert_in_order(s: Seq<EntryView>, x: EntryView)
    requires
        strictly_sorted(s),
    ensures
        strictly_sorted(insert_in_order(s, x)),
        forall|y: EntryView| #[trigger] insert_in_order(s, x).contains(y) <==> (s.contains(y) || y == x),
        insert_in_order(s, x).len() > 0,
        s.len() > 0 ==> insert_in_order(s, x)[0] == s[0] || insert_in_order(s, x)[0] == x,
    decreases s.len(),
{
    let r = insert_in_order(s, x);
    if s.len() == 0 {
        assert(r[0] == x);
    } else if entry_order(x, s[0]) < 0 {
        assert forall|i: int, j: int| 0 <= i < j < r.len() implies entry_order(#[trigger] r[i], #[trigger] r[j]) < 0 by {
            if i == 0 {
                if j > 1 {
                    lemma_entry_order_transitive(x, s[0], s[j - 1]);
                }
            } else {
                assert(r[i] == s[i - 1]);
                assert(r[j] == s[j - 1]);
            }
        }
        assert forall|y: EntryView| #[trigger] r.contains(y) <==> (s.contains(y) || y == x) by {
            if r.contains(y) {
                let k = choose|k: int| 0 <= k < r.len() && r[k] == y;
                if k > 0 {
                    assert(s[k - 1] == y);
                }
            }
            if s.contains(y) {
                let k = choose|k: int| 0 <= k < s.len() && s[k] == y;
                assert(r[k + 1] == y);
            }
            if y == x {
                assert(r[0] == y);
            }
        }
    } else if entry_order(x, s[0]) == 0 {
        lemma_entry_order_antisymmetric(x, s[0]);
        assert(s.contains(s[0]));
    } else {
        let t = s.drop_first();
        assert(strictly_sorted(t)) by {
            assert forall|i: int, j: int| 0 <= i < j < t.len() implies entry_order(#[trigger] t[i], #[trigger] t[j]) < 0 by {
                assert(t[i] == s[i + 1]);
                assert(t[j] == s[j + 1]);
            }
        }
        lemma_insert_in_order(t, x);
        let u = insert_in_order(t, x);
        lemma_entry_order_antisymmetric(x, s[0]);
        assert forall|i: int, j: int| 0 <= i < j < r.len() implies entry_order(#[trigger] r[i], #[trigger] r[j]) < 0 by {
            if i == 0 {
                assert(r[j] == u[j - 1]);
                assert(u.contains(u[j - 1]));
                if u[j - 1] != x {
                    assert(t.contains(u[j - 1]));
                    let k = choose|k: int| 0 <= k < t.len() && t[k] == u[j - 1];
                    assert(s[k + 1] == u[j - 1]);
                }
            } else {
                assert(r[i] == u[i - 1]);
                assert(r[j] == u[j - 1]);
            }
        }
        assert forall|y: EntryView| #[trigger] r.contains(y) <==> (s.contains(y) || y == x) by {
            if r.contains(y) {
                let k = choose|k: int| 0 <= k < r.len() && r[k] == y;
                if k > 0 {
                    assert(u[k - 1] == y);
                    assert(u.contains(y));
                    if t.contains(y) {
                        let q = choose|q: int| 0 <= q < t.len() && t[q] == y;
                        assert(s[q + 1] == y);
                    }
                }
            }
            if s.contains(y) {
                let k = choose|k: int| 0 <= k < s.len() && s[k] == y;
                if k > 0 {
                    assert(t[k - 1] == y);
                    assert(t.contains(y));
                    assert(u.contains(y));
                    let q = choose|q: int| 0 <= q < u.len() && u[q] == y;
                    assert(r[q + 1] == y);
                }
            }
            if y == x {
                assert(u.contains(x));
                let q = choose|q: int| 0 <= q < u.len() && u[q] == x;
                assert(r[q + 1] == y);
            }
        }
    }
}

/// `sorted_entries(items)` lists the entries of `items` in entry order, each
/// once.
pub proof fn lemma_sorted_entries(items: Seq<EntryView>)
    ensures
        sorted_set_of(sorted_entries(items), items),
    decreases items.len(),
{
    if items.len() > 0 {
        let rest = items.drop_last();
        lemma_sorted_entries(rest);
        lemma_insert_in_order(sorted_entries(rest), items.last());
        assert forall|y: EntryView| #[trigger] sorted_entries(items).contains(y) <==> items.contains(y) by {
            if rest.contains(y) {
                let k = choose|k: int| 0 <= k < rest.len() && rest[k] == y;
                assert(items[k] == y);
            }
            if items.contains(y) {
                let k = choose|k: int| 0 <= k < items.len() && items[k] == y;
                if k < items.len() - 1 {
                    assert(rest[k] == y);
                }
            }
            if y == items.last() {
                assert(items[items.len() - 1] == y);
            }
        }
    }
}

/// A list in entry order holding the entries of `a` and `b` is `merged(a, b)`.
pub proof fn lemma_merged(r: Seq<EntryView>, a: Seq<EntryView>, b: Seq<EntryView>)
    requires
        sorted_set_of(r, a + b),
    ensures
        r == merged(a, b),
{
    lemma_sorted_entries(a + b);
    lemma_sorted_set_unique(r, merged(a, b));
}

/// The entries of `entries` and `extra` together, sorted in entry order,
/// with repeated entries kept once.
pub fn merge_entries(entries: Vec<Entry>, extra: Vec<Entry>) -> (r: Vec<Entry>)
    ensures
        sorted_set_of(entry_views(r@), entry_views(entries@) + entry_views(extra@)),
        entry_views(r@) == merged(entry_views(entries@), entry_views(extra@)),
{
    let ghost a = entry_views(entries@);
    let ghost b = entry_views(extra@);
    let mut r: Vec<Entry> = Vec::new();
    assert(entry_views(r@) =~= Seq::<EntryView>::empty());
    insert_all(&mut r, entries);
    insert_all(&mut r, extra);
    proof {
        assert forall|x: EntryView| #[trigger]
            entry_views(r@).contains(x) <==> (a + b).contains(x) by {
            if a.contains(x) {
                let k = choose|k: int| 0 <= k < a.len() && a[k] == x;
                assert((a + b)[k] == x);
            }
            if b.contains(x) {
                let k = choose|k: int| 0 <= k < b.len() && b[k] == x;
                assert((a + b)[a.len() + k] == x);
            }
            if (a + b).contains(x) {
                let k = choose|k: int| 0 <= k < (a + b).len() && (a + b)[k] == x;
                if k < a.len() {
                    assert(a[k] == x);
                } else {
                    assert(b[k - a.len()] == x);
                }
            }
        }
        lemma_merged(entry_views(r@), a, b);
    }
    r
}

/// A copy of a list of entries.
pub fn clone_entries(entries: &Vec<Entry>) -> (r: Vec<Entry>)
    ensures
        entry_views(r@) == entry_views(entries@),
{
    let mut r: Vec<Entry> = Vec::new();
    let mut i: usize = 0;
    while i < entries.len()
        invariant
            i <= entries@.len(),
            entry_views(r@) == entry_views(entries@).take(i as int),
        decreases entries@.len() - i,
    {
        let copy = entries[i].clone();
        assert(copy@ == entries@[i as int]@);
        let ghost before = r@;
        r.push(copy);
        assert(entry_views(r@) =~= entry_views(before).push(copy@));
        assert(entry_views(r@) =~= entry_views(entries@).take(i + 1));
        i = i + 1;
    }
    assert(entry_views(entries@).take(entries@.len() as int) =~= entry_views(entries@));
    r
}


/// Two lists in strict entry order that hold the same entries are the same
/// list: the merged list of a mode is determined by the entries it holds.
pub proof fn lemma_sorted_set_unique(a: Seq<EntryView>, b: Seq<EntryView>)
    requires
        strictly_sorted(a),
        strictly_sorted(b),
        forall|x: EntryView| a.contains(x) <==> b.contains(x),
    ensures
        a == b,
    decreases a.len(),
{
    if a.len() == 0 {
        if b.len() > 0 {
            assert(b.contains(b[0]));
        }
        assert(a =~= b);
    } else {
        assert(a.contains(a[0]));
        let j = choose|j: int| 0 <= j < b.len() && b[j] == a[0];
        assert(b.contains(b[0]));
        let i = choose|i: int| 0 <= i < a.len() && a[i] == b[0];
        if a[0] != b[0] {
            assert(entry_order(a[0], a[i]) < 0);
            assert(entry_order(b[0], b[j]) < 0);
            lemma_entry_order_antisymmetric(a[0], b[0]);
        }
        let ta = a.drop_first();
        let tb = b.drop_first();
        assert forall|x: EntryView| ta.contains(x) <==> tb.contains(x) by {
            if ta.contains(x) {
                let k = choose|k: int| 0 <= k < ta.len() && ta[k] == x;
                assert(a[k + 1] == x);
                assert(entry_order(a[0], a[k + 1]) < 0);
                lemma_entry_order_antisymmetric(a[0], x);
                assert(a.contains(x));
                let m = choose|m: int| 0 <= m < b.len() && b[m] == x;
                assert(m != 0);
                assert(tb[m - 1] == x);
            }
            if tb.contains(x) {
                let k = choose|k: int| 0 <= k < tb.len() && tb[k] == x;
                assert(b[k + 1] == x);
                assert(entry_order(b[0], b[k + 1]) < 0);
                lemma_entry_order_antisymmetric(b[0], x);
                assert(b.contains(x));
                let m = choose|m: int| 0 <= m < a.len() && a[m] == x;
                assert(m != 0);
                assert(ta[m - 1] == x);
            }
        }
        assert(strictly_sorted(ta)) by {
            assert forall|p: int, q: int| 0 <= p < q < ta.len() implies entry_order(
                #[trigger] ta[p],
                #[trigger] ta[q],
            ) < 0 by {
                assert(ta[p] == a[p + 1]);
                assert(ta[q] == a[q + 1]);
            }
        }
        assert(strictly_sorted(tb)) by {
            assert forall|p: int, q: int| 0 <= p < q < tb.len() implies entry_order(
                #[trigger] tb[p],
                #[trigger] tb[q],
            ) < 0 by {
                assert(tb[p] == b[p + 1]);
                assert(tb[q] == b[q + 1]);
            }
        }
        lemma_sorted_set_unique(ta, tb);
        assert(a =~= b) by {
            assert forall|k: int| 0 <= k < a.len() implies a[k] == b[k] by {
                if k > 0 {
                    assert(a[k] == ta[k - 1]);
                    assert(b[k] == tb[k - 1]);
                }
            }
        }
    }
}

/// Merging the same batch into a merged list a second time changes nothing.
pub proof fn lemma_merged_twice(entries: Seq<EntryView>, batch: Seq<EntryView>)
    ensures
        merged(merged(entries, batch), batch) == merged(entries, batch),
{
    lemma_sorted_entries(entries + batch);
    lemma_sorted_entries(merged(entries, batch) + batch);
    lemma_merge_idempotent(entries, batch, merged(entries, batch), merged(merged(entries, batch), batch));
}

/// Merging a batch of entries into a merged list a second time changes
/// nothing.
pub proof fn lemma_merge_idempotent(
    entries: Seq<EntryView>,
    batch: Seq<EntryView>,
    once: Seq<EntryView>,
    twice: Seq<EntryView>,
)
    requires
        sorted_set_of(once, entries + batch),
        sorted_set_of(twice, once + batch),
    ensures
        twice == once,
{
    assert forall|x: EntryView| twice.contains(x) <==> once.contains(x) by {
        lemma_concat_contains(once, batch, x);
        lemma_concat_contains(entries, batch, x);
    }
    lemma_sorted_set_unique(twice, once);
}

/// An element is in a concatenation exactly when it is in one of the parts.
pub proof fn lemma_concat_contains(a: Seq<EntryView>, b: Seq<EntryView>, x: EntryView)
    ensures
        (a + b).contains(x) <==> (a.contains(x) || b.contains(x)),
{
    if a.contains(x) {
        let k = choose|k: int| 0 <= k < a.len() && a[k] == x;
        assert((a + b)[k] == x);
    }
    if b.contains(x) {
        let k = choose|k: int| 0 <= k < b.len() && b[k] == x;
        assert((a + b)[a.len() + k] == x);
    }
    if (a + b).contains(x) {
        let k = choose|k: int| 0 <= k < (a + b).len() && (a + b)[k] == x;
        if k < a.len() {
            assert(a[k] == x);
        } else {
            assert(b[k - a.len()] == x);
        }
    }
}

/// Weights never increase along `s`.
pub open spec fn heaviest_first(s: Seq<EntryView>) -> bool {
    forall|i: int, j: int| 0 <= i < j < s.len() ==> (#[trigger] s[i]).weight >= (#[trigger] s[j]).weight
}

/// The same entries, reordered so that weights never increase.
pub fn sort_by_weight(entries: Vec<Entry>) -> (r: Vec<Entry>)
    ensures
        entry_views(r@).to_multiset() == entry_views(entries@).to_multiset(),
        heaviest_first(entry_views(r@)),
{
    let ghost all = entry_views(entries@);
    let mut rest = entries;
    let mut r: Vec<Entry> = Vec::new();
    proof {
        assert(entry_views(r@).to_multiset() =~= Multiset::<EntryView>::empty()) by {
            broadcast use vstd::multiset::group_multiset_axioms;
            assert(entry_views(r@) =~= Seq::<EntryView>::empty());
        }
    }
    while rest.len() > 0
        invariant
            heaviest_first(entry_views(r@)),
            entry_views(r@).to_multiset().add(entry_views(rest@).to_multiset()) == all.to_multiset(),
        decreases rest.len(),
    {
        let ghost rest_before = entry_views(rest@);
        let e = rest.pop().unwrap();
        let ghost ev = e@;
        proof {
            assert(rest_before =~= entry_views(rest@).push(ev));
        }
        let mut p: usize = 0;
        while p < r.len() && r[p].weight >= e.weight
            invariant
                p <= r.len(),
                forall|k: int| 0 <= k < p ==> (#[trigger] r@[k]).weight >= e.weight,
            decreases r.len() - p,
        {
            p = p + 1;
        }
        let ghost before = entry_views(r@);
        r.insert(p, e);
        proof {
            let after = entry_views(r@);
            assert(after =~= before.insert(p as int, ev));
            assert forall|i: int, j: int| 0 <= i < j < after.len() implies (#[trigger] after[i]).weight
                >= (#[trigger] after[j]).weight by {
                if i < p && j < p {
                    assert(after[i] == before[i]);
                    assert(after[j] == before[j]);
                } else if i < p && j == p {
                    assert(after[i] == before[i]);
                } else if i < p {
                    assert(after[i] == before[i]);
                    assert(after[j] == before[j - 1]);
                } else if i == p {
                    assert(after[j] == before[j - 1]);
                    assert(before[p as int].weight < ev.weight);
                } else {
                    assert(after[i] == before[i - 1]);
                    assert(after[j] == before[j - 1]);
                }
            }
            broadcast use vstd::multiset::group_multiset_axioms;
            assert(after.to_multiset().add(entry_views(rest@).to_multiset()) =~= all.to_multiset());
        }
    }
    proof {
        broadcast use vstd::multiset::group_multiset_axioms;
        assert(entry_views(rest@) =~= Seq::<EntryView>::empty());
        assert(entry_views(r@).to_multiset() =~= all.to_multiset());
    }
    r
}

} // verus!
