//! The order in which flag names are listed in help text: lexicographic by
//! character code, a proper prefix first.
use vstd::prelude::*;

verus! {

/// `a` comes strictly before `b`.
pub open spec fn name_lt(a: Seq<char>, b: Seq<char>) -> bool
    decreases a.len(),
{
    if a.len() == 0 {
        b.len() > 0
    } else if b.len() == 0 {
        false
    } else if a[0] != b[0] {
        a[0] < b[0]
    } else {
        name_lt(a.drop_first(), b.drop_first())
    }
}

/// Each name comes strictly before the next one, so no name occurs twice.
pub open spec fn strictly_sorted(s: Seq<Seq<char>>) -> bool {
    forall|i: int, j: int| 0 <= i < j < s.len() ==> name_lt(#[trigger] s[i], #[trigger] s[j])
}

/// The text of each string in a sequence.
pub open spec fn texts(v: Seq<String>) -> Seq<Seq<char>> {
    v.map_values(|s: String| s@)
}

pub proof fn lemma_lt_irreflexive(a: Seq<char>)
    ensures
        !name_lt(a, a),
    decreases a.len(),
{
    if a.len() > 0 {
        lemma_lt_irreflexive(a.drop_first());
    }
}

pub proof fn lemma_lt_asymmetric(a: Seq<char>, b: Seq<char>)
    ensures
        name_lt(a, b) ==> !name_lt(b, a),
    decreases a.len(),
{
    if a.len() > 0 && b.len() > 0 && a[0] == b[0] {
        lemma_lt_asymmetric(a.drop_first(), b.drop_first());
    }
}

pub proof fn lemma_lt_total(a: Seq<char>, b: Seq<char>)
    ensures
        a != b ==> name_lt(a, b) || name_lt(b, a),
    decreases a.len(),
{
    if a.len() > 0 && b.len() > 0 && a[0] == b[0] {
        lemma_lt_total(a.drop_first(), b.drop_first());
        if a.drop_first() == b.drop_first() {
            assert(a =~= seq![a[0]] + a.drop_first());
            assert(b =~= seq![b[0]] + b.drop_first());
        }
    } else if a.len() > 0 && b.len() > 0 {
    } else if a.len() == 0 && b.len() == 0 {
        assert(a =~= b);
    }
}

pub proof fn lemma_lt_transitive(a: Seq<char>, b: Seq<char>, c: Seq<char>)
    requires
        name_lt(a, b),
        name_lt(b, c),
    ensures
        name_lt(a, c),
    decreases a.len(),
{
    if a.len() > 0 && a[0] == b[0] && b[0] == c[0] {
        lemma_lt_transitive(a.drop_first(), b.drop_first(), c.drop_first());
    }
}

proof fn lemma_listings_agree(a: Seq<Seq<char>>, b: Seq<Seq<char>>, n: int)
    requires
        strictly_sorted(a),
        strictly_sorted(b),
        a.to_set() == b.to_set(),
        0 <= n <= a.len(),
        n <= b.len(),
    ensures
        forall|i: int| 0 <= i < n ==> a[i] == b[i],
    decreases n,
{
    if n > 0 {
        lemma_listings_agree(a, b, n - 1);
        let i = n - 1;
        assert(a.to_set().contains(a[i]));
        assert(b.to_set().contains(b[i]));
        let k = choose|k: int| 0 <= k < b.len() && b[k] == a[i];
        let l = choose|l: int| 0 <= l < a.len() && a[l] == b[i];
        if k < i {
            assert(name_lt(a[k], a[i]));
            lemma_lt_irreflexive(a[i]);
        }
        if l < i {
            assert(name_lt(b[l], b[i]));
            lemma_lt_irreflexive(b[i]);
        }
        if k > i {
            assert(name_lt(b[i], a[i]));
            if l == i {
                lemma_lt_irreflexive(a[i]);
            } else {
                assert(name_lt(a[i], b[i]));
                lemma_lt_asymmetric(a[i], b[i]);
            }
        }
    }
}

/// A set of names has one strictly sorted listing: two strictly sorted
/// sequences that hold the same names are equal.
pub proof fn lemma_sorted_listing_unique(a: Seq<Seq<char>>, b: Seq<Seq<char>>)
    requires
        strictly_sorted(a),
        strictly_sorted(b),
        a.to_set() == b.to_set(),
    ensures
        a == b,
{
    if a.len() < b.len() {
        lemma_listings_agree(a, b, a.len() as int);
        assert(a.to_set().contains(b[a.len() as int]));
        let l = choose|l: int| 0 <= l < a.len() && a[l] == b[a.len() as int];
        assert(name_lt(b[l], b[a.len() as int]));
        lemma_lt_irreflexive(b[l]);
    } else if b.len() < a.len() {
        lemma_listings_agree(a, b, b.len() as int);
        assert(b.to_set().contains(a[b.len() as int]));
        let l = choose|l: int| 0 <= l < b.len() && b[l] == a[b.len() as int];
        assert(name_lt(a[l], a[b.len() as int]));
        lemma_lt_irreflexive(a[l]);
    } else {
        lemma_listings_agree(a, b, a.len() as int);
        assert(a =~= b);
    }
}

/// Decides `name_lt` on two strings, one character at a time.
pub fn name_less(a: &str, b: &str) -> (r: bool)
    ensures
        r == name_lt(a@, b@),
{
    let la = a.unicode_len();
    let lb = b.unicode_len();
    let mut i: usize = 0;
    assert(a@.skip(0) =~= a@);
    assert(b@.skip(0) =~= b@);
    while i < la && i < lb
        invariant
            la == a@.len(),
            lb == b@.len(),
            i <= la,
            i <= lb,
            name_lt(a@, b@) == name_lt(a@.skip(i as int), b@.skip(i as int)),
        decreases la - i,
    {
        let ca = a.get_char(i);
        let cb = b.get_char(i);
        if ca != cb {
            return ca < cb;
        }
        assert(a@.skip(i as int).drop_first() =~= a@.skip(i + 1));
        assert(b@.skip(i as int).drop_first() =~= b@.skip(i + 1));
        i = i + 1;
    }
    i < lb && i == la
}

/// Puts `x` into the strictly sorted list `v` at its place.
pub fn insert_sorted(v: &mut Vec<String>, x: String)
    requires
        strictly_sorted(texts(old(v)@)),
        !texts(old(v)@).contains(x@),
    ensures
        strictly_sorted(texts(final(v)@)),
        forall|n: Seq<char>| #[trigger]
            texts(final(v)@).contains(n) <==> texts(old(v)@).contains(n) || n == x@,
{
    let ghost s = texts(v@);
    let mut j: usize = 0;
    while j < v.len() && !name_less(x.as_str(), v[j].as_str())
        invariant
            j <= v.len(),
            s == texts(v@),
            strictly_sorted(s),
            !s.contains(x@),
            forall|k: int| 0 <= k < j ==> name_lt(#[trigger] s[k], x@),
        decreases v.len() - j,
    {
        proof {
            lemma_lt_total(x@, s[j as int]);
            assert(s[j as int] != x@) by {
                assert(s.contains(s[j as int]));
            }
        }
        j = j + 1;
    }
    proof {
        if j < s.len() {
            assert forall|k: int| j <= k < s.len() implies name_lt(x@, #[trigger] s[k]) by {
                if k > j {
                    lemma_lt_transitive(x@, s[j as int], s[k]);
                }
            }
        }
    }
    v.insert(j, x);
    proof {
        let t = texts(v@);
        assert(t =~= s.insert(j as int, x@));
        s.insert_ensures(j as int, x@);
        assert forall|a: int, b: int| 0 <= a < b < t.len() implies name_lt(t[a], t[b]) by {
            if b < j {
            } else if b == j {
            } else if a < j {
                assert(name_lt(x@, s[b - 1]));
                lemma_lt_transitive(s[a], x@, s[b - 1]);
            } else if a == j {
                assert(name_lt(x@, s[b - 1]));
            } else {
                assert(name_lt(s[a - 1], s[b - 1]));
            }
        }
        assert forall|n: Seq<char>| #[trigger]
            t.contains(n) <==> s.contains(n) || n == x@ by {
            if t.contains(n) {
                let k = choose|k: int| 0 <= k < t.len() && t[k] == n;
                if k < j {
                    assert(s[k] == n);
                } else if k > j {
                    assert(s[k - 1] == n);
                }
            }
            if s.contains(n) {
                let k = choose|k: int| 0 <= k < s.len() && s[k] == n;
                if k < j {
                    assert(t[k] == n);
                } else {
                    assert(t[k + 1] == n);
                }
            }
            if n == x@ {
                assert(t[j as int] == n);
            }
        }
    }
}

} // verus!
