//! The dictionary order of texts, character by character (by code point),
//! which is also the byte order of their UTF-8 encodings.
use vstd::prelude::*;

verus! {

/// The length of the common prefix of `a` and `b` from position `i` on.
pub open spec fn common(a: Seq<char>, b: Seq<char>, i: int) -> int
    decreases a.len() - i,
{
    if 0 <= i < a.len() && i < b.len() && a[i] == b[i] {
        common(a, b, i + 1)
    } else {
        i
    }
}

/// Whether `a` comes before `b` in dictionary order: at the first position
/// where they differ `a` has the smaller character, or `a` is a proper prefix
/// of `b`.
pub open spec fn text_lt(a: Seq<char>, b: Seq<char>) -> bool {
    let c = common(a, b, 0);
    if c < a.len() && c < b.len() {
        a[c] < b[c]
    } else {
        a.len() < b.len()
    }
}

/// Whether the common prefix of `a` and `b` has length `c`.
pub open spec fn common_is(a: Seq<char>, b: Seq<char>, c: int) -> bool {
    &&& 0 <= c <= a.len()
    &&& c <= b.len()
    &&& forall|j: int| 0 <= j < c ==> a[j] == b[j]
    &&& (c == a.len() || c == b.len() || a[c] != b[c])
}

proof fn lemma_common_from(a: Seq<char>, b: Seq<char>, i: int, c: int)
    requires
        0 <= i <= c,
        common_is(a, b, c),
    ensures
        common(a, b, i) == c,
    decreases c - i,
{
    if i < c {
        lemma_common_from(a, b, i + 1, c);
    }
}

proof fn lemma_common_bounds(a: Seq<char>, b: Seq<char>, i: int)
    requires
        0 <= i <= a.len(),
        i <= b.len(),
    ensures
        common_is(a, b, common(a, b, i)) || exists|j: int| 0 <= j < i && a[j] != b[j],
        i <= common(a, b, i),
    decreases a.len() - i,
{
    if i < a.len() && i < b.len() && a[i] == b[i] {
        lemma_common_bounds(a, b, i + 1);
    }
}

/// The common prefix is what it should be.
pub proof fn lemma_common(a: Seq<char>, b: Seq<char>)
    ensures
        common_is(a, b, common(a, b, 0)),
        common(a, b, 0) == common(b, a, 0),
{
    lemma_common_bounds(a, b, 0);
    lemma_common_bounds(b, a, 0);
    let c = common(a, b, 0);
    assert(common_is(b, a, c));
    lemma_common_from(b, a, 0, c);
}

/// Two different texts are ordered one way or the other, and never both.
pub proof fn lemma_text_total(a: Seq<char>, b: Seq<char>)
    ensures
        a != b ==> text_lt(a, b) || text_lt(b, a),
        !(text_lt(a, b) && text_lt(b, a)),
        text_lt(a, b) ==> a != b,
{
    lemma_common(a, b);
    let c = common(a, b, 0);
    assert(common(b, a, 0) == c);
    if c < a.len() && c < b.len() {
        assert(a[c] != b[c]);
    } else if a.len() == b.len() {
        assert(a =~= b);
    }
}

/// The order is transitive.
pub proof fn lemma_text_trans(a: Seq<char>, b: Seq<char>, c: Seq<char>)
    requires
        text_lt(a, b),
        text_lt(b, c),
    ensures
        text_lt(a, c),
{
    lemma_common(a, b);
    lemma_common(b, c);
    lemma_common(a, c);
    let c1 = common(a, b, 0);
    let c2 = common(b, c, 0);
    let m = if c1 <= c2 {
        c1
    } else {
        c2
    };
    assert(forall|j: int| 0 <= j < m ==> a[j] == c[j]);
    if c1 < c2 {
        assert(c1 < c.len());
        if c1 < a.len() {
            assert(b[c1] == c[c1]);
            assert(common_is(a, c, c1));
        } else {
            assert(common_is(a, c, c1));
        }
        lemma_common_from(a, c, 0, c1);
    } else if c2 < c1 {
        assert(c2 < b.len() && c2 < a.len());
        assert(a[c2] == b[c2]);
        assert(c2 < c.len());
        assert(common_is(a, c, c2));
        lemma_common_from(a, c, 0, c2);
    } else {
        if m < a.len() && m < b.len() {
            assert(m < c.len());
            assert(common_is(a, c, m));
            lemma_common_from(a, c, 0, m);
        } else {
            assert(m == a.len() && m < b.len());
            assert(m < c.len());
            assert(common_is(a, c, m));
            lemma_common_from(a, c, 0, m);
        }
    }
}

/// Compares two texts: -1 when `a` comes first, 0 when they are equal, 1 when
/// `b` comes first.
pub fn compare_text(a: &[char], b: &[char]) -> (r: i8)
    ensures
        r == -1 <==> text_lt(a@, b@),
        r == 0 <==> a@ == b@,
        r == 1 <==> text_lt(b@, a@),
        r == -1 || r == 0 || r == 1,
{
    let mut i: usize = 0;
    while i < a.len() && i < b.len() && a[i] == b[i]
        invariant
            i <= a@.len(),
            i <= b@.len(),
            forall|j: int| 0 <= j < i ==> a@[j] == b@[j],
        decreases a@.len() - i,
    {
        i += 1;
    }
    proof {
        assert(common_is(a@, b@, i as int));
        lemma_common_from(a@, b@, 0, i as int);
        assert(common_is(b@, a@, i as int));
        lemma_common_from(b@, a@, 0, i as int);
        lemma_text_total(a@, b@);
    }
    if i < a.len() && i < b.len() {
        if a[i] < b[i] {
            -1
        } else {
            1
        }
    } else if a.len() < b.len() {
        -1
    } else if b.len() < a.len() {
        1
    } else {
        assert(a@ =~= b@);
        0
    }
}


/// Dictionary order: a proper prefix comes first ("ab" before "abc").
pub proof fn lemma_prefix_first(a: Seq<char>, b: Seq<char>)
    requires
        b.len() > 0,
    ensures
        text_lt(a, a + b),
{
    lemma_common(a, a + b);
    let c = common(a, a + b, 0);
    if c < a.len() {
        assert((a + b)[c] == a[c]);
    }
}

/// Dictionary order: where two texts first differ, the smaller character
/// decides.
pub proof fn lemma_first_difference_decides(a: Seq<char>, b: Seq<char>, k: int)
    requires
        0 <= k < a.len(),
        k < b.len(),
        forall|j: int| 0 <= j < k ==> a[j] == b[j],
        a[k] < b[k],
    ensures
        text_lt(a, b),
{
    lemma_common(a, b);
    let c = common(a, b, 0);
    if c < k {
        assert(a[c] == b[c]);
    }
    assert(c == k);
}
} // verus!
