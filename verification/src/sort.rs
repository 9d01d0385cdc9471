//! Sorting strings in `String`'s order, and removing repeats from a sorted list.
use vstd::prelude::*;

use crate::text::{lemma_seq_lt_asymmetric, lemma_seq_lt_irreflexive, lemma_seq_lt_total,
    lemma_seq_lt_transitive, seq_lt, str_eq, str_lt};

verus! {

broadcast use vstd::seq_lib::group_to_multiset_ensures;

/// Non-decreasing in `String`'s order.
pub open spec fn sorted_le(s: Seq<Seq<char>>) -> bool {
    forall|i: int, j: int| 0 <= i < j < s.len() ==> !seq_lt(#[trigger] s[j], #[trigger] s[i])
}

/// Strictly increasing in `String`'s order: sorted, each string once.
pub open spec fn sorted_lt(s: Seq<Seq<char>>) -> bool {
    forall|i: int, j: int| 0 <= i < j < s.len() ==> seq_lt(#[trigger] s[i], #[trigger] s[j])
}

/// `s` in order, repeats kept.
pub open spec fn sorted_seq(s: Seq<Seq<char>>) -> Seq<Seq<char>> {
    choose|t: Seq<Seq<char>>| sorted_le(t) && t.to_multiset() == s.to_multiset()
}

/// The distinct strings of `s`, in order.
pub open spec fn sorted_set(s: Seq<Seq<char>>) -> Seq<Seq<char>> {
    choose|t: Seq<Seq<char>>|
        sorted_lt(t) && forall|x: Seq<char>| #[trigger] t.contains(x) <==> s.contains(x)
}

pub open spec fn strings_view(v: Seq<String>) -> Seq<Seq<char>> {
    Seq::new(v.len(), |i: int| v[i]@)
}

pub proof fn lemma_sorted_le_unique(t1: Seq<Seq<char>>, t2: Seq<Seq<char>>)
    requires
        sorted_le(t1),
        sorted_le(t2),
        t1.to_multiset() == t2.to_multiset(),
    ensures
        t1 == t2,
    decreases t1.len(),
{
    assert(t1.len() == t1.to_multiset().len());
    assert(t2.len() == t2.to_multiset().len());
    if t1.len() == 0 {
        assert(t1 =~= t2);
    } else {
        let x = t1[0];
        let y = t2[0];
        assert(t1.contains(x));
        assert(t1.to_multiset().count(x) > 0);
        assert(t2.contains(x));
        let k = choose|k: int| 0 <= k < t2.len() && t2[k] == x;
        assert(t2.contains(y));
        assert(t2.to_multiset().count(y) > 0);
        assert(t1.to_multiset().count(y) > 0);
        assert(t1.contains(y));
        let m = choose|m: int| 0 <= m < t1.len() && t1[m] == y;
        if k > 0 {
            assert(!seq_lt(t2[k], t2[0]));
        }
        if m > 0 {
            assert(!seq_lt(t1[m], t1[0]));
        }
        lemma_seq_lt_total(x, y);
        assert(x == y);
        let r1 = t1.remove(0);
        let r2 = t2.remove(0);
        assert(r1.to_multiset() == t1.to_multiset().remove(x));
        assert(r2.to_multiset() == t2.to_multiset().remove(y));
        assert forall|i: int, j: int| 0 <= i < j < r1.len() implies !seq_lt(
            #[trigger] r1[j],
            #[trigger] r1[i],
        ) by {
            assert(r1[i] == t1[i + 1] && r1[j] == t1[j + 1]);
        }
        assert forall|i: int, j: int| 0 <= i < j < r2.len() implies !seq_lt(
            #[trigger] r2[j],
            #[trigger] r2[i],
        ) by {
            assert(r2[i] == t2[i + 1] && r2[j] == t2[j + 1]);
        }
        lemma_sorted_le_unique(r1, r2);
        assert(t1 =~= seq![x] + r1);
        assert(t2 =~= seq![y] + r2);
    }
}

/// A strictly sorted list with the strings of `s` is the one `sorted_set` names.
pub proof fn lemma_sorted_set_is(t: Seq<Seq<char>>, s: Seq<Seq<char>>)
    requires
        sorted_lt(t),
        forall|x: Seq<char>| t.contains(x) <==> s.contains(x),
    ensures
        sorted_set(s) == t,
{
    assert(exists|u: Seq<Seq<char>>|
        #[trigger] sorted_lt(u) && forall|x: Seq<char>| #[trigger] u.contains(x) <==> s.contains(x));
    let c = sorted_set(s);
    lemma_sorted_lt_unique(c, t);
}

/// `String`'s order, as a relation that holds of equal strings too.
pub open spec fn string_le(a: Seq<char>, b: Seq<char>) -> bool {
    !seq_lt(b, a)
}

proof fn lemma_string_le_total()
    ensures
        vstd::relations::total_ordering(|a: Seq<char>, b: Seq<char>| string_le(a, b)),
{
    let leq = |a: Seq<char>, b: Seq<char>| string_le(a, b);
    assert forall|a: Seq<char>| #[trigger] leq(a, a) by {
        lemma_seq_lt_irreflexive(a);
    }
    assert forall|a: Seq<char>, b: Seq<char>| #[trigger] leq(a, b) && #[trigger] leq(b, a) implies a == b by {
        if a != b {
            lemma_seq_lt_total(a, b);
        }
    }
    assert forall|a: Seq<char>, b: Seq<char>, c: Seq<char>| #[trigger] leq(a, b) && #[trigger] leq(b, c)
        implies leq(a, c) by {
        if a != b && b != c {
            lemma_seq_lt_total(a, b);
            lemma_seq_lt_total(b, c);
            lemma_seq_lt_transitive(a, b, c);
            lemma_seq_lt_asymmetric(a, c);
        }
    }
    assert forall|a: Seq<char>, b: Seq<char>| #[trigger] leq(a, b) || #[trigger] leq(b, a) by {
        if seq_lt(a, b) {
            lemma_seq_lt_asymmetric(a, b);
        }
    }
}

/// Every list of strings has a sorted arrangement.
pub proof fn lemma_sorted_seq(s: Seq<Seq<char>>)
    ensures
        sorted_le(sorted_seq(s)),
        sorted_seq(s).to_multiset() == s.to_multiset(),
{
    let leq = |a: Seq<char>, b: Seq<char>| string_le(a, b);
    lemma_string_le_total();
    s.lemma_sort_by_ensures(leq);
    let t = s.sort_by(leq);
    assert forall|i: int, j: int| 0 <= i < j < t.len() implies !seq_lt(#[trigger] t[j], #[trigger] t[i]) by {
        assert(leq(t[i], t[j]));
    }
    assert(sorted_le(t));
}

/// The sorted arrangement of a list depends on which strings it holds, and how often, alone.
pub proof fn lemma_sorted_seq_same(a: Seq<Seq<char>>, b: Seq<Seq<char>>)
    requires
        a.to_multiset() == b.to_multiset(),
    ensures
        sorted_seq(a) == sorted_seq(b),
{
    lemma_sorted_seq(a);
    lemma_sorted_seq(b);
    lemma_sorted_le_unique(sorted_seq(a), sorted_seq(b));
}

pub proof fn lemma_sorted_lt_unique(t1: Seq<Seq<char>>, t2: Seq<Seq<char>>)
    requires
        sorted_lt(t1),
        sorted_lt(t2),
        forall|x: Seq<char>| t1.contains(x) <==> t2.contains(x),
    ensures
        t1 == t2,
    decreases t1.len(),
{
    if t1.len() == 0 {
        if t2.len() > 0 {
            assert(t2.contains(t2[0]));
        }
        assert(t1 =~= t2);
    } else {
        assert(t1.contains(t1[0]));
        let x = t1[0];
        let y = t2[0];
        let k = choose|k: int| 0 <= k < t2.len() && t2[k] == x;
        assert(t2.contains(y));
        let m = choose|m: int| 0 <= m < t1.len() && t1[m] == y;
        if k > 0 {
            assert(seq_lt(t2[0], t2[k]));
            if m > 0 {
                assert(seq_lt(t1[0], t1[m]));
                lemma_seq_lt_asymmetric(x, y);
            } else {
                lemma_seq_lt_irreflexive(x);
            }
        } else if m > 0 {
            assert(seq_lt(t1[0], t1[m]));
            lemma_seq_lt_irreflexive(x);
        }
        let r1 = t1.drop_first();
        let r2 = t2.drop_first();
        assert forall|z: Seq<char>| r1.contains(z) <==> r2.contains(z) by {
            if r1.contains(z) {
                let i = choose|i: int| 0 <= i < r1.len() && r1[i] == z;
                assert(seq_lt(t1[0], t1[i + 1]));
                assert(t1.contains(z));
                let j = choose|j: int| 0 <= j < t2.len() && t2[j] == z;
                if j == 0 {
                    lemma_seq_lt_irreflexive(z);
                }
                assert(r2[j - 1] == z);
            }
            if r2.contains(z) {
                let i = choose|i: int| 0 <= i < r2.len() && r2[i] == z;
                assert(seq_lt(t2[0], t2[i + 1]));
                assert(t2.contains(z));
                let j = choose|j: int| 0 <= j < t1.len() && t1[j] == z;
                if j == 0 {
                    lemma_seq_lt_irreflexive(z);
                }
                assert(r1[j - 1] == z);
            }
        }
        assert forall|i: int, j: int| 0 <= i < j < r1.len() implies seq_lt(
            #[trigger] r1[i],
            #[trigger] r1[j],
        ) by {
            assert(seq_lt(t1[i + 1], t1[j + 1]));
        }
        assert forall|i: int, j: int| 0 <= i < j < r2.len() implies seq_lt(
            #[trigger] r2[i],
            #[trigger] r2[j],
        ) by {
            assert(seq_lt(t2[i + 1], t2[j + 1]));
        }
        lemma_sorted_lt_unique(r1, r2);
        assert(t1 =~= seq![x] + r1);
        assert(t2 =~= seq![y] + r2);
    }
}

/// Sorts strings in `String`'s order (`sort`/`sort_unstable` give the same for strings).
pub fn sort_strings(v: Vec<String>) -> (r: Vec<String>)
    ensures
        strings_view(r@) == sorted_seq(strings_view(v@)),
        sorted_le(strings_view(r@)),
        strings_view(r@).to_multiset() == strings_view(v@).to_multiset(),
{
    let ghost sv = strings_view(v@);
    let mut sorted: Vec<String> = Vec::new();
    let mut i: usize = 0;
    while i < v.len()
        invariant
            i <= v.len(),
            sv == strings_view(v@),
            sorted_le(strings_view(sorted@)),
            strings_view(sorted@).to_multiset() == sv.take(i as int).to_multiset(),
        decreases v.len() - i,
    {
        let x = &v[i];
        let ghost old_s = strings_view(sorted@);
        let mut pos: usize = 0;
        while pos < sorted.len() && !str_lt(x.as_str(), sorted[pos].as_str())
            invariant
                pos <= sorted.len(),
                old_s == strings_view(sorted@),
                forall|t: int| 0 <= t < pos ==> !seq_lt(x@, #[trigger] old_s[t]),
            decreases sorted.len() - pos,
        {
            assert(old_s[pos as int] == sorted@[pos as int]@);
            pos = pos + 1;
        }
        proof {
            if pos < sorted.len() {
                assert(old_s[pos as int] == sorted@[pos as int]@);
            }
        }
        sorted.insert(pos, x.clone());
        proof {
            let ns = strings_view(sorted@);
            assert(ns =~= old_s.insert(pos as int, x@));
            assert forall|a: int, b: int| 0 <= a < b < ns.len() implies !seq_lt(
                #[trigger] ns[b],
                #[trigger] ns[a],
            ) by {
                if b < pos {
                } else if b == pos {
                } else {
                    assert(ns[b] == old_s[b - 1]);
                    // x < old_s[pos] <= old_s[b - 1]
                    let lo = old_s[pos as int];
                    let hi = old_s[b - 1];
                    if b - 1 > pos {
                        assert(!seq_lt(hi, lo));
                        lemma_seq_lt_total(lo, hi);
                        if seq_lt(lo, hi) {
                            lemma_seq_lt_transitive(x@, lo, hi);
                        }
                    }
                    assert(seq_lt(x@, hi));
                    lemma_seq_lt_asymmetric(x@, hi);
                    if a < pos {
                        assert(!seq_lt(x@, old_s[a]));
                        lemma_seq_lt_total(x@, old_s[a]);
                        if seq_lt(hi, old_s[a]) {
                            if old_s[a] == x@ {
                            } else {
                                assert(seq_lt(old_s[a], x@));
                                lemma_seq_lt_transitive(hi, old_s[a], x@);
                            }
                        }
                    } else if a > pos {
                        assert(ns[a] == old_s[a - 1]);
                    }
                }
            }
            assert(sv.take(i + 1) =~= sv.take(i as int).push(x@));
            assert(ns.to_multiset() == old_s.to_multiset().insert(x@));
        }
        i = i + 1;
    }
    proof {
        assert(sv.take(v.len() as int) =~= sv);
        let c = sorted_seq(sv);
        assert(sorted_le(strings_view(sorted@)) && strings_view(sorted@).to_multiset()
            == sv.to_multiset());
        lemma_sorted_le_unique(strings_view(sorted@), c);
    }
    sorted
}

/// Drops repeats from a sorted list (`Vec::dedup` on sorted input).
pub fn dedup_sorted(v: Vec<String>) -> (r: Vec<String>)
    requires
        sorted_le(strings_view(v@)),
    ensures
        strings_view(r@) == sorted_set(strings_view(v@)),
        sorted_lt(strings_view(r@)),
        forall|x: Seq<char>| #[trigger] strings_view(r@).contains(x) <==> strings_view(v@).contains(x),
{
    let ghost sv = strings_view(v@);
    let mut out: Vec<String> = Vec::new();
    let mut i: usize = 0;
    while i < v.len()
        invariant
            i <= v.len(),
            sv == strings_view(v@),
            sorted_le(sv),
            sorted_lt(strings_view(out@)),
            forall|x: Seq<char>| strings_view(out@).contains(x) <==> sv.take(i as int).contains(x),
            i > 0 ==> out@.len() > 0 && strings_view(out@).last() == sv[i - 1],
            i == 0 ==> out@.len() == 0,
        decreases v.len() - i,
    {
        let ghost old_o = strings_view(out@);
        let x = &v[i];
        let repeat = out.len() > 0 && str_eq(out[out.len() - 1].as_str(), x.as_str());
        if !repeat {
            out.push(x.clone());
        }
        proof {
            let no = strings_view(out@);
            assert(sv.take(i + 1) =~= sv.take(i as int).push(x@));
            if !repeat {
                assert(no =~= old_o.push(x@));
                if i > 0 {
                    assert(!seq_lt(sv[i as int], sv[i - 1]));
                    lemma_seq_lt_total(sv[i - 1], sv[i as int]);
                    assert(seq_lt(old_o.last(), x@));
                }
                assert forall|a: int, b: int| 0 <= a < b < no.len() implies seq_lt(
                    #[trigger] no[a],
                    #[trigger] no[b],
                ) by {
                    if b == no.len() - 1 && a < b - 1 {
                        lemma_seq_lt_transitive(old_o[a], old_o.last(), x@);
                    }
                }
                assert forall|y: Seq<char>| no.contains(y) <==> sv.take(i + 1).contains(y) by {
                    if no.contains(y) {
                        let t = choose|t: int| 0 <= t < no.len() && no[t] == y;
                        if t < old_o.len() {
                            assert(old_o.contains(y));
                            let u = choose|u: int| 0 <= u < i && #[trigger] sv.take(i as int)[u] == y;
                            assert(sv.take(i + 1)[u] == y);
                        } else {
                            assert(sv.take(i + 1)[i as int] == y);
                        }
                    }
                    if sv.take(i + 1).contains(y) {
                        let u = choose|u: int| 0 <= u < i + 1 && #[trigger] sv.take(i + 1)[u] == y;
                        if u < i {
                            assert(sv.take(i as int)[u] == y);
                            assert(sv.take(i as int).contains(y));
                            assert(old_o.contains(y));
                            let t = choose|t: int| 0 <= t < old_o.len() && old_o[t] == y;
                            assert(no[t] == y);
                        } else {
                            assert(no[no.len() - 1] == y);
                        }
                    }
                }
            } else {
                assert(no == old_o);
                assert forall|y: Seq<char>| no.contains(y) <==> sv.take(i + 1).contains(y) by {
                    if no.contains(y) {
                        let t = choose|t: int| 0 <= t < no.len() && no[t] == y;
                        let u = choose|u: int| 0 <= u < i && #[trigger] sv.take(i as int)[u] == y;
                        assert(sv.take(i + 1)[u] == y);
                    }
                    if sv.take(i + 1).contains(y) {
                        let u = choose|u: int| 0 <= u < i + 1 && #[trigger] sv.take(i + 1)[u] == y;
                        if u < i {
                            assert(sv.take(i as int)[u] == y);
                            assert(sv.take(i as int).contains(y));
                            assert(old_o.contains(y));
                        } else {
                            assert(no[no.len() - 1] == y);
                        }
                    }
                }
            }
        }
        i = i + 1;
    }
    proof {
        assert(sv.take(v.len() as int) =~= sv);
        let c = sorted_set(sv);
        assert(sorted_lt(strings_view(out@)) && forall|x: Seq<char>|
            #[trigger] strings_view(out@).contains(x) <==> sv.contains(x));
        lemma_sorted_lt_unique(strings_view(out@), c);
    }
    out
}

} // verus!
