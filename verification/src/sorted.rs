//! Strings in lexicographic order, each at most once: what a list sorted
//! and then deduplicated holds.

use vstd::prelude::*;
use crate::text::chars_of;

verus! {

/// `a` sorts strictly before `b`, comparing characters by code point and a
/// proper prefix before any longer string (the order of `str`).
pub open spec fn seq_lt(a: Seq<char>, b: Seq<char>) -> bool
    decreases a.len(),
{
    if a.len() == 0 {
        b.len() > 0
    } else if b.len() == 0 {
        false
    } else if a[0] != b[0] {
        a[0] < b[0]
    } else {
        seq_lt(a.drop_first(), b.drop_first())
    }
}

/// The characters of each string.
pub open spec fn views(v: Seq<String>) -> Seq<Seq<char>> {
    v.map_values(|s: String| s@)
}

/// Each element sorts strictly before every later one.
pub open spec fn strictly_sorted(s: Seq<Seq<char>>) -> bool {
    forall|i: int, j: int| 0 <= i < j < s.len() ==> seq_lt(#[trigger] s[i], #[trigger] s[j])
}

pub proof fn lemma_lt_irrefl(a: Seq<char>)
    ensures
        !seq_lt(a, a),
    decreases a.len(),
{
    if a.len() > 0 {
        lemma_lt_irrefl(a.drop_first());
    }
}

pub proof fn lemma_lt_trans(a: Seq<char>, b: Seq<char>, c: Seq<char>)
    requires
        seq_lt(a, b),
        seq_lt(b, c),
    ensures
        seq_lt(a, c),
    decreases a.len(),
{
    if a.len() > 0 && b.len() > 0 && c.len() > 0 {
        if a[0] == b[0] && b[0] == c[0] {
            lemma_lt_trans(a.drop_first(), b.drop_first(), c.drop_first());
        }
    }
}

pub proof fn lemma_lt_total(a: Seq<char>, b: Seq<char>)
    requires
        a != b,
    ensures
        seq_lt(a, b) || seq_lt(b, a),
    decreases a.len(),
{
    if a.len() == 0 && b.len() == 0 {
        assert(a =~= b);
    }
    if a.len() > 0 && b.len() > 0 && a[0] == b[0] {
        if a.drop_first() =~= b.drop_first() {
            assert(a.len() == b.len());
            assert(a =~= b) by {
                assert forall|i: int| 0 <= i < a.len() implies a[i] == b[i] by {
                    if i > 0 {
                        assert(a[i] == a.drop_first()[i - 1]);
                        assert(b[i] == b.drop_first()[i - 1]);
                    }
                }
            }
        } else {
            lemma_lt_total(a.drop_first(), b.drop_first());
        }
    }
}

/// Whether `a` sorts strictly before `b`.
pub fn str_lt(a: &str, b: &str) -> (r: bool)
    ensures
        r == seq_lt(a@, b@),
{
    let x = chars_of(a);
    let y = chars_of(b);
    let mut i: usize = 0;
    proof {
        assert(a@.skip(0) =~= a@);
        assert(b@.skip(0) =~= b@);
    }
    while i < x.len() && i < y.len() && x[i] == y[i]
        invariant
            i <= x@.len(),
            i <= y@.len(),
            x@ == a@,
            y@ == b@,
            seq_lt(a@, b@) == seq_lt(a@.skip(i as int), b@.skip(i as int)),
        decreases x.len() - i,
    {
        proof {
            let s = a@.skip(i as int);
            let t = b@.skip(i as int);
            assert(s[0] == t[0]);
            assert(s.drop_first() == a@.skip(i as int + 1));
            assert(t.drop_first() == b@.skip(i as int + 1));
        }
        i = i + 1;
    }
    let ghost s = a@.skip(i as int);
    let ghost t = b@.skip(i as int);
    if i == x.len() {
        proof {
            assert(s.len() == 0);
        }
        i < y.len()
    } else if i == y.len() {
        proof {
            assert(t.len() == 0);
        }
        false
    } else {
        proof {
            assert(s[0] == x@[i as int]);
            assert(t[0] == y@[i as int]);
        }
        x[i] < y[i]
    }
}

/// Put `x` into a strictly sorted list, unless it is already there.
pub fn insert_unique(v: &mut Vec<String>, x: String)
    requires
        strictly_sorted(views(old(v)@)),
    ensures
        strictly_sorted(views(final(v)@)),
        views(final(v)@).to_set() == views(old(v)@).to_set().insert(x@),
{
    let ghost w = views(v@);
    let mut i: usize = 0;
    while i < v.len() && str_lt(v[i].as_str(), x.as_str())
        invariant
            i <= v@.len(),
            w == views(v@),
            v@ == old(v)@,
            strictly_sorted(w),
            forall|j: int| 0 <= j < i ==> seq_lt(#[trigger] w[j], x@),
        decreases v.len() - i,
    {
        i = i + 1;
    }
    if i < v.len() && crate::json::str_eq(v[i].as_str(), x.as_str()) {
        proof {
            assert(w[i as int] == x@);
            assert(w.to_set().insert(x@) =~= w.to_set());
        }
        return;
    }
    proof {
        if i < v@.len() {
            assert(w[i as int] != x@);
            assert(!seq_lt(w[i as int], x@));
            lemma_lt_total(w[i as int], x@);
            assert forall|k: int| i <= k < w.len() implies seq_lt(x@, #[trigger] w[k]) by {
                if k > i {
                    lemma_lt_trans(x@, w[i as int], w[k]);
                }
            }
        }
    }
    let ghost xv = x@;
    v.insert(i, x);
    proof {
        let nw = views(v@);
        assert(nw =~= w.insert(i as int, xv));
        assert forall|a: int, b: int| 0 <= a < b < nw.len() implies seq_lt(
            #[trigger] nw[a],
            #[trigger] nw[b],
        ) by {
            if b < i {
            } else if b == i {
            } else if a < i {
                assert(nw[b] == w[b - 1]);
                if b - 1 == i as int {
                } else {
                    lemma_lt_trans(nw[a], w[i as int], w[b - 1]);
                }
            } else if a == i {
                assert(nw[b] == w[b - 1]);
            } else {
                assert(nw[a] == w[a - 1]);
                assert(nw[b] == w[b - 1]);
            }
        }
        assert(nw.to_set() =~= w.to_set().insert(xv)) by {
            assert forall|e: Seq<char>| nw.to_set().contains(e) implies w.to_set().insert(
                xv,
            ).contains(e) by {
                let k = choose|k: int| 0 <= k < nw.len() && nw[k] == e;
                if k < i {
                    assert(w[k] == e);
                } else if k > i {
                    assert(w[k - 1] == e);
                }
            }
            assert forall|e: Seq<char>| w.to_set().insert(xv).contains(e) implies nw.to_set().contains(
                e,
            ) by {
                if e == xv {
                    assert(nw[i as int] == e);
                } else {
                    let k = choose|k: int| 0 <= k < w.len() && w[k] == e;
                    if k < i {
                        assert(nw[k] == e);
                    } else {
                        assert(nw[k + 1] == e);
                    }
                }
            }
        }
    }
}

/// The strings of `v`, sorted and each kept once.
pub fn sort_dedup(v: Vec<String>) -> (r: Vec<String>)
    ensures
        strictly_sorted(views(r@)),
        views(r@).to_set() == views(v@).to_set(),
{
    let mut out: Vec<String> = Vec::new();
    let mut rest = v;
    let ghost orig = views(rest@);
    let ghost taken: Seq<Seq<char>> = Seq::empty();
    proof {
        assert(views(out@) =~= Seq::<Seq<char>>::empty());
    }
    while rest.len() > 0
        invariant
            strictly_sorted(views(out@)),
            views(out@).to_set() == taken.to_set(),
            orig =~= views(rest@) + taken,
        decreases rest.len(),
    {
        let ghost before = views(rest@);
        let s = rest.pop().unwrap();
        proof {
            assert(before =~= views(rest@).push(s@));
            assert(views(rest@) + (seq![s@] + taken) =~= before + taken);
            let nt = seq![s@] + taken;
            assert(nt.to_set() =~= taken.to_set().insert(s@)) by {
                assert forall|e: Seq<char>| nt.to_set().contains(e) implies taken.to_set().insert(
                    s@,
                ).contains(e) by {
                    let k = choose|k: int| 0 <= k < nt.len() && nt[k] == e;
                    if k > 0 {
                        assert(taken[k - 1] == e);
                    }
                }
                assert forall|e: Seq<char>| taken.to_set().insert(s@).contains(e) implies nt.to_set().contains(
                    e,
                ) by {
                    if e == s@ {
                        assert(nt[0] == e);
                    } else {
                        let k = choose|k: int| 0 <= k < taken.len() && taken[k] == e;
                        assert(nt[k + 1] == e);
                    }
                }
            }
            taken = seq![s@] + taken;
        }
        insert_unique(&mut out, s);
    }
    proof {
        assert(views(rest@) =~= Seq::<Seq<char>>::empty());
        assert(orig =~= taken);
    }
    out
}

} // verus!
