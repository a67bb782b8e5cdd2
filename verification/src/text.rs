//! Character-level helpers on strings: reading, ordering and rewriting text.

use vstd::prelude::*;
use vstd::string::*;

verus! {

/// The characters of `s`, in order.
pub fn chars_of(s: &str) -> (v: Vec<char>)
    ensures
        v@ == s@,
{
    let n = s.unicode_len();
    let mut v: Vec<char> = Vec::new();
    let mut i: usize = 0;
    while i < n
        invariant
            n == s@.len(),
            i <= n,
            v@ == s@.take(i as int),
        decreases n - i,
    {
        let c = s.get_char(i);
        v.push(c);
        assert(s@.take(i + 1) =~= s@.take(i as int).push(c));
        i = i + 1;
    }
    assert(s@.take(n as int) =~= s@);
    v
}

/// Whether two texts hold the same characters.
pub fn same_text(a: &str, b: &str) -> (r: bool)
    ensures
        r == (a@ == b@),
{
    let x = chars_of(a);
    let y = chars_of(b);
    if x.len() != y.len() {
        return false;
    }
    let mut i: usize = 0;
    while i < x.len()
        invariant
            x@ == a@,
            y@ == b@,
            x.len() == y.len(),
            i <= x.len(),
            forall|k: int| 0 <= k < i ==> x@[k] == y@[k],
        decreases x.len() - i,
    {
        if x[i] != y[i] {
            return false;
        }
        i = i + 1;
    }
    assert(x@ =~= y@);
    true
}


/// Three-way comparison of texts, character by character (by code point),
/// a proper prefix coming first: -1, 0 or 1. This is the order of `String`,
/// whose bytewise UTF-8 order agrees with the order of code points.
pub open spec fn text_order(a: Seq<char>, b: Seq<char>) -> int
    decreases a.len(),
{
    if a.len() == 0 {
        if b.len() == 0 {
            0
        } else {
            -1
        }
    } else if b.len() == 0 {
        1
    } else if (a[0] as int) < (b[0] as int) {
        -1
    } else if (a[0] as int) > (b[0] as int) {
        1
    } else {
        text_order(a.drop_first(), b.drop_first())
    }
}

/// Swapping the texts negates the comparison, which is -1, 0 or 1.
pub proof fn lemma_text_order_antisymmetric(a: Seq<char>, b: Seq<char>)
    ensures
        text_order(a, b) == -text_order(b, a),
        -1 <= text_order(a, b) <= 1,
    decreases a.len(),
{
    if a.len() > 0 && b.len() > 0 && (a[0] as int) == (b[0] as int) {
        lemma_text_order_antisymmetric(a.drop_first(), b.drop_first());
    }
}

/// Texts compare equal exactly when they are the same text.
pub proof fn lemma_text_order_equal(a: Seq<char>, b: Seq<char>)
    ensures
        (text_order(a, b) == 0) == (a == b),
    decreases a.len(),
{
    if a.len() > 0 && b.len() > 0 && (a[0] as int) == (b[0] as int) {
        lemma_text_order_equal(a.drop_first(), b.drop_first());
        assert(a[0] == b[0]);
        if a.drop_first() == b.drop_first() {
            assert(a =~= b) by {
                assert forall|k: int| 0 <= k < a.len() implies a[k] == b[k] by {
                    if k > 0 {
                        assert(a[k] == a.drop_first()[k - 1]);
                        assert(b[k] == b.drop_first()[k - 1]);
                    }
                }
            }
        }
        if a == b {
            assert(a.drop_first() =~= b.drop_first());
        }
    } else if a.len() > 0 && b.len() > 0 {
        if a == b {
            assert(a[0] == b[0]);
        }
    } else if a.len() == 0 && b.len() == 0 {
        assert(a =~= b);
    }
}

/// The order of texts is transitive.
pub proof fn lemma_text_order_transitive(a: Seq<char>, b: Seq<char>, c: Seq<char>)
    requires
        text_order(a, b) < 0,
        text_order(b, c) < 0,
    ensures
        text_order(a, c) < 0,
    decreases a.len(),
{
    if a.len() > 0 && b.len() > 0 && c.len() > 0 {
        if (a[0] as int) == (b[0] as int) && (b[0] as int) == (c[0] as int) {
            lemma_text_order_transitive(a.drop_first(), b.drop_first(), c.drop_first());
        }
    }
}

/// Skipping a common character leaves the comparison unchanged.
proof fn lemma_text_order_skip(a: Seq<char>, b: Seq<char>, i: int)
    requires
        0 <= i < a.len(),
        i < b.len(),
        a[i] == b[i],
    ensures
        text_order(a.skip(i), b.skip(i)) == text_order(a.skip(i + 1), b.skip(i + 1)),
{
    assert(a.skip(i).drop_first() =~= a.skip(i + 1));
    assert(b.skip(i).drop_first() =~= b.skip(i + 1));
}

/// Three-way comparison of two strings: -1, 0 or 1, as `text_order`.
pub fn compare_text(a: &str, b: &str) -> (r: i8)
    ensures
        r as int == text_order(a@, b@),
{
    let x = chars_of(a);
    let y = chars_of(b);
    let mut i: usize = 0;
    assert(x@.skip(0) =~= x@);
    assert(y@.skip(0) =~= y@);
    while i < x.len() && i < y.len()
        invariant
            x@ == a@,
            y@ == b@,
            i <= x.len(),
            i <= y.len(),
            text_order(a@, b@) == text_order(x@.skip(i as int), y@.skip(i as int)),
        decreases x.len() - i,
    {
        let cx = x[i];
        let cy = y[i];
        if cx < cy {
            return -1;
        }
        if cx > cy {
            return 1;
        }
        proof {
            lemma_text_order_skip(x@, y@, i as int);
        }
        i = i + 1;
    }
    if i < x.len() {
        1
    } else if i < y.len() {
        -1
    } else {
        0
    }
}

} // verus!
