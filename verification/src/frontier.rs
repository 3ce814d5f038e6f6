//! Choosing seed phrases for a phrase frontier (phrases that carry no
//! information are left out), and the facet summary of a set of passages.

use vstd::prelude::*;
use crate::text::{chars_eq, chars_of};
use crate::catalog_index::{lex_lt, strictly_sorted, name_before, lemma_lex_irrefl, lemma_lex_total, lemma_lex_trans};

verus! {

/// A phrase is of low value when it is empty, repeats a single character,
/// or is an even-length phrase (four characters or more) made of one half
/// said twice.
pub open spec fn low_value(s: Seq<char>) -> bool {
    ||| s.len() == 0
    ||| (forall|i: int| 0 <= i < s.len() ==> #[trigger] s[i] == s[0])
    ||| (s.len() >= 4 && s.len() % 2 == 0 && s.take((s.len() / 2) as int) == s.skip((s.len() / 2) as int))
}

/// See `low_value`.
pub fn looks_low_value_phrase(phrase: &str) -> (r: bool)
    ensures
        r == low_value(phrase@),
{
    let cs = chars_of(phrase);
    let n = cs.len();
    if n == 0 {
        return true;
    }
    let mut same = true;
    let mut i: usize = 0;
    while i < n
        invariant
            i <= n,
            n == cs@.len(),
            n > 0,
            same == (forall|j: int| 0 <= j < i ==> #[trigger] cs@[j] == cs@[0]),
        decreases n - i,
    {
        same = same && cs[i] == cs[0];
        i += 1;
    }
    if same {
        return true;
    }
    if n >= 4 && n % 2 == 0 {
        let half = n / 2;
        let mut eq = true;
        let mut k: usize = 0;
        while k < half
            invariant
                k <= half,
                half * 2 == n,
                n == cs@.len(),
                eq == (forall|j: int| 0 <= j < k ==> #[trigger] cs@[j] == cs@[half + j]),
            decreases half - k,
        {
            eq = eq && cs[k] == cs[half + k];
            k += 1;
        }
        proof {
            let a = cs@.take(half as int);
            let b = cs@.skip(half as int);
            if eq {
                assert(a =~= b);
            } else {
                let j = choose|j: int| 0 <= j < half && #[trigger] cs@[j] != cs@[half + j];
                assert(a[j] != b[j]);
            }
        }
        if eq {
            return true;
        }
    }
    false
}

// ---------------------------------------------------------------------------
// Facet summary
// ---------------------------------------------------------------------------

/// What the facet summary reads of one passage: its period, canon and
/// origin (empty where the passage has none) and its traditions.
#[derive(Debug, Clone)]
pub struct FacetRow {
    pub period: String,
    pub canon: String,
    pub origin: String,
    pub traditions: Vec<String>,
}

/// How often each period, canon, origin and tradition occurs among some
/// passages: each list holds value and count pairs sorted by value.
#[derive(Debug, Clone)]
pub struct FacetSummary {
    pub periods: Vec<(String, usize)>,
    pub canons: Vec<(String, usize)>,
    pub origins: Vec<(String, usize)>,
    pub traditions: Vec<(String, usize)>,
}

/// The values of the value and count pairs `v`.
pub open spec fn tally_keys(v: Seq<(String, usize)>) -> Seq<Seq<char>> {
    v.map_values(|e: (String, usize)| e.0@)
}

/// `v` lists each value once, sorted, with a count of at least one.
pub open spec fn tally_ok(v: Seq<(String, usize)>) -> bool {
    &&& strictly_sorted(tally_keys(v))
    &&& forall|i: int| 0 <= i < v.len() ==> (#[trigger] v[i]).1 >= 1
}

/// The count `v` gives the value `k`: the counts of its pairs for `k`
/// added up (zero when `k` is not listed).
pub open spec fn tally_of(v: Seq<(String, usize)>, k: Seq<char>) -> int
    decreases v.len(),
{
    if v.len() == 0 {
        0
    } else {
        tally_of(v.drop_last(), k) + if v.last().0@ == k {
            v.last().1 as int
        } else {
            0int
        }
    }
}

/// How many of the values `s` are `k`.
pub open spec fn occurrences(s: Seq<Seq<char>>, k: Seq<char>) -> int
    decreases s.len(),
{
    if s.len() == 0 {
        0
    } else {
        occurrences(s.drop_last(), k) + if s.last() == k {
            1int
        } else {
            0int
        }
    }
}

/// `v` counts the non-empty values of `s`, sorted by value.
pub open spec fn tallies(v: Seq<(String, usize)>, s: Seq<Seq<char>>) -> bool {
    &&& tally_ok(v)
    &&& forall|k: Seq<char>| #[trigger] tally_of(v, k) == if k.len() > 0 {
        occurrences(s, k)
    } else {
        0
    }
}

/// The periods of the passages `rows`.
pub open spec fn periods_of(rows: Seq<FacetRow>) -> Seq<Seq<char>> {
    rows.map_values(|r: FacetRow| r.period@)
}

/// The canons of the passages `rows`.
pub open spec fn canons_of(rows: Seq<FacetRow>) -> Seq<Seq<char>> {
    rows.map_values(|r: FacetRow| r.canon@)
}

/// The origins of the passages `rows`.
pub open spec fn origins_of(rows: Seq<FacetRow>) -> Seq<Seq<char>> {
    rows.map_values(|r: FacetRow| r.origin@)
}

/// The traditions of the passages `rows`, one passage after the other.
pub open spec fn traditions_of(rows: Seq<FacetRow>) -> Seq<Seq<char>>
    decreases rows.len(),
{
    if rows.len() == 0 {
        Seq::empty()
    } else {
        traditions_of(rows.drop_last()) + rows.last().traditions@.map_values(|t: String| t@)
    }
}

proof fn lemma_tally_ge(v: Seq<(String, usize)>, p: int)
    requires
        0 <= p < v.len(),
    ensures
        tally_of(v, v[p].0@) >= v[p].1,
    decreases v.len(),
{
    if p < v.len() - 1 {
        assert(v.drop_last()[p] == v[p]);
        lemma_tally_ge(v.drop_last(), p);
    }
    lemma_tally_nonneg(v.drop_last(), v[p].0@);
}

proof fn lemma_tally_nonneg(v: Seq<(String, usize)>, k: Seq<char>)
    ensures
        tally_of(v, k) >= 0,
    decreases v.len(),
{
    if v.len() > 0 {
        lemma_tally_nonneg(v.drop_last(), k);
    }
}

/// Changing pair `p` changes the count of each value by what the pair
/// gave it before and gives it now.
proof fn lemma_tally_update(v: Seq<(String, usize)>, p: int, e: (String, usize), k: Seq<char>)
    requires
        0 <= p < v.len(),
    ensures
        tally_of(v.update(p, e), k) == tally_of(v, k) - (if v[p].0@ == k {
            v[p].1 as int
        } else {
            0int
        }) + (if e.0@ == k {
            e.1 as int
        } else {
            0int
        }),
    decreases v.len(),
{
    let w = v.update(p, e);
    if p < v.len() - 1 {
        assert(w.drop_last() =~= v.drop_last().update(p, e));
        assert(v.drop_last()[p] == v[p]);
        lemma_tally_update(v.drop_last(), p, e, k);
    } else {
        assert(w.drop_last() =~= v.drop_last());
    }
}

/// Inserting a pair adds what it gives to the count of its value.
proof fn lemma_tally_insert(v: Seq<(String, usize)>, p: int, e: (String, usize), k: Seq<char>)
    requires
        0 <= p <= v.len(),
    ensures
        tally_of(v.insert(p, e), k) == tally_of(v, k) + (if e.0@ == k {
            e.1 as int
        } else {
            0int
        }),
    decreases v.len(),
{
    let w = v.insert(p, e);
    if p < v.len() {
        assert(w.drop_last() =~= v.drop_last().insert(p, e));
        lemma_tally_insert(v.drop_last(), p, e, k);
    } else {
        assert(w.drop_last() =~= v);
    }
}

proof fn lemma_occurrences_len(s: Seq<Seq<char>>, k: Seq<char>)
    ensures
        0 <= occurrences(s, k) <= s.len(),
    decreases s.len(),
{
    if s.len() > 0 {
        lemma_occurrences_len(s.drop_last(), k);
    }
}

/// Counts one more occurrence of `value` in the counts `counts`, unless
/// `value` is empty: its count goes up by one, and a value not listed yet
/// is listed, in its place, with a count of one.
pub fn bump(counts: &mut Vec<(String, usize)>, value: String)
    requires
        tally_ok(old(counts)@),
        tally_of(old(counts)@, value@) < usize::MAX,
    ensures
        tally_ok(final(counts)@),
        forall|k: Seq<char>| #[trigger] tally_of(final(counts)@, k) == tally_of(old(counts)@, k) + if k
            == value@ && value@.len() > 0 {
            1int
        } else {
            0int
        },
{
    if value.as_str().is_empty() {
        return;
    }
    let ghost v0 = counts@;
    let ghost s0 = tally_keys(v0);
    let vc = chars_of(value.as_str());
    let mut p: usize = 0;
    while p < counts.len() && name_before(&counts[p].0, vc.as_slice())
        invariant
            p <= counts@.len(),
            counts@ == v0,
            s0 == tally_keys(v0),
            vc@ == value@,
            forall|j: int| 0 <= j < p ==> lex_lt(#[trigger] s0[j], value@),
        decreases counts@.len() - p,
    {
        proof {
            assert(s0[p as int] == counts@[p as int].0@);
        }
        p += 1;
    }
    if p < counts.len() {
        let kc = chars_of(counts[p].0.as_str());
        if chars_eq(kc.as_slice(), vc.as_slice()) {
            let c = counts[p].1;
            proof {
                assert(v0[p as int].0@ == value@);
                lemma_tally_ge(v0, p as int);
            }
            let key = counts[p].0.clone();
            counts.set(p, (key, c + 1));
            proof {
                let v1 = counts@;
                assert(tally_keys(v1) =~= s0);
                assert forall|k: Seq<char>| #[trigger] tally_of(v1, k) == tally_of(v0, k) + if k == value@ && value@.len()
                    > 0 {
                    1int
                } else {
                    0int
                } by {
                    lemma_tally_update(v0, p as int, v1[p as int], k);
                    assert(v1 == v0.update(p as int, v1[p as int]));
                }
            }
            return;
        }
        proof {
            assert(s0[p as int] == kc@);
            lemma_lex_total(s0[p as int], value@);
            assert(lex_lt(value@, s0[p as int]));
        }
    }
    counts.insert(p, (value, 1));
    proof {
        let v1 = counts@;
        let s1 = tally_keys(v1);
        assert(s1 =~= s0.insert(p as int, v1[p as int].0@));
        assert forall|i: int, j: int| 0 <= i < j < s1.len() implies lex_lt(#[trigger] s1[i], #[trigger] s1[j]) by {
            if j < p {
                assert(lex_lt(s0[i], s0[j]));
            } else if j == p {
                assert(lex_lt(s0[i], value@));
            } else if i < p {
                assert(s1[j] == s0[j - 1]);
                if j - 1 == p {
                    lemma_lex_trans(s0[i], value@, s0[p as int]);
                } else {
                    assert(lex_lt(s0[i], s0[j - 1]));
                }
            } else if i == p {
                assert(s1[j] == s0[j - 1]);
                if j - 1 > p {
                    assert(lex_lt(s0[p as int], s0[j - 1]));
                    lemma_lex_trans(value@, s0[p as int], s0[j - 1]);
                }
            } else {
                assert(lex_lt(s0[i - 1], s0[j - 1]));
            }
        }
        assert(tally_ok(v1));
        assert forall|k: Seq<char>| #[trigger] tally_of(v1, k) == tally_of(v0, k) + if k == value@ && value@.len() > 0 {
            1int
        } else {
            0int
        } by {
            lemma_tally_insert(v0, p as int, v1[p as int], k);
            assert(v1 == v0.insert(p as int, v1[p as int]));
        }
    }
}

proof fn lemma_tallies_push(v0: Seq<(String, usize)>, v1: Seq<(String, usize)>, s: Seq<Seq<char>>, x: Seq<char>)
    requires
        tallies(v0, s),
        tally_ok(v1),
        forall|k: Seq<char>| #[trigger] tally_of(v1, k) == tally_of(v0, k) + if k == x && x.len() > 0 {
            1int
        } else {
            0int
        },
    ensures
        tallies(v1, s.push(x)),
{
    assert forall|k: Seq<char>| #[trigger] tally_of(v1, k) == if k.len() > 0 {
        occurrences(s.push(x), k)
    } else {
        0
    } by {
        assert(s.push(x).drop_last() =~= s);
        assert(tally_of(v0, k) == if k.len() > 0 {
            occurrences(s, k)
        } else {
            0
        });
    }
}

proof fn lemma_traditions_prefix(rows: Seq<FacetRow>, i: int)
    requires
        0 <= i <= rows.len(),
    ensures
        traditions_of(rows.take(i)).len() <= traditions_of(rows).len(),
    decreases rows.len() - i,
{
    if i < rows.len() {
        lemma_traditions_prefix(rows, i + 1);
        assert(rows.take(i + 1).drop_last() =~= rows.take(i));
    } else {
        assert(rows.take(i) =~= rows);
    }
}

/// Counts the periods, canons, origins and traditions of the passages
/// `rows`: each summary list holds the non-empty values that occur, sorted,
/// each with the number of its occurrences.
pub fn facet_summary(rows: &[FacetRow]) -> (r: FacetSummary)
    requires
        traditions_of(rows@).len() <= usize::MAX,
    ensures
        tallies(r.periods@, periods_of(rows@)),
        tallies(r.canons@, canons_of(rows@)),
        tallies(r.origins@, origins_of(rows@)),
        tallies(r.traditions@, traditions_of(rows@)),
{
    let mut periods: Vec<(String, usize)> = Vec::new();
    let mut canons: Vec<(String, usize)> = Vec::new();
    let mut origins: Vec<(String, usize)> = Vec::new();
    let mut traditions: Vec<(String, usize)> = Vec::new();
    proof {
        assert(rows@.take(0) =~= Seq::<FacetRow>::empty());
        assert(periods_of(rows@.take(0)) =~= Seq::<Seq<char>>::empty());
        assert(canons_of(rows@.take(0)) =~= Seq::<Seq<char>>::empty());
        assert(origins_of(rows@.take(0)) =~= Seq::<Seq<char>>::empty());
        assert(traditions_of(rows@.take(0)) =~= Seq::<Seq<char>>::empty());
    }
    let mut i: usize = 0;
    while i < rows.len()
        invariant
            i <= rows@.len(),
            traditions_of(rows@).len() <= usize::MAX,
            tallies(periods@, periods_of(rows@.take(i as int))),
            tallies(canons@, canons_of(rows@.take(i as int))),
            tallies(origins@, origins_of(rows@.take(i as int))),
            tallies(traditions@, traditions_of(rows@.take(i as int))),
        decreases rows@.len() - i,
    {
        let ghost t = rows@.take(i as int);
        let ghost t1 = rows@.take(i + 1);
        proof {
            assert(t1.drop_last() =~= t);
            assert(t1 =~= t.push(rows@[i as int]));
            assert(periods_of(t1) =~= periods_of(t).push(rows@[i as int].period@));
            assert(canons_of(t1) =~= canons_of(t).push(rows@[i as int].canon@));
            assert(origins_of(t1) =~= origins_of(t).push(rows@[i as int].origin@));
            lemma_occurrences_len(periods_of(t), rows@[i as int].period@);
            lemma_occurrences_len(canons_of(t), rows@[i as int].canon@);
            lemma_occurrences_len(origins_of(t), rows@[i as int].origin@);
        }
        let ghost p0 = periods@;
        bump(&mut periods, rows[i].period.clone());
        proof {
            lemma_tallies_push(p0, periods@, periods_of(t), rows@[i as int].period@);
        }
        let ghost c0 = canons@;
        bump(&mut canons, rows[i].canon.clone());
        proof {
            lemma_tallies_push(c0, canons@, canons_of(t), rows@[i as int].canon@);
        }
        let ghost o0 = origins@;
        bump(&mut origins, rows[i].origin.clone());
        proof {
            lemma_tallies_push(o0, origins@, origins_of(t), rows@[i as int].origin@);
        }
        let ghost ts = rows@[i as int].traditions@.map_values(|x: String| x@);
        proof {
            lemma_traditions_prefix(rows@, i + 1);
            assert(traditions_of(t1) == traditions_of(t) + ts);
            assert(traditions_of(t) + ts.take(0) =~= traditions_of(t));
        }
        let mut j: usize = 0;
        while j < rows[i].traditions.len()
            invariant
                i < rows@.len(),
                j <= rows@[i as int].traditions@.len(),
                ts == rows@[i as int].traditions@.map_values(|x: String| x@),
                traditions_of(t).len() + ts.len() <= usize::MAX,
                tallies(traditions@, traditions_of(t) + ts.take(j as int)),
            decreases rows@[i as int].traditions@.len() - j,
        {
            let ghost d0 = traditions@;
            let ghost sj = traditions_of(t) + ts.take(j as int);
            proof {
                lemma_occurrences_len(sj, ts[j as int]);
                assert(traditions_of(t) + ts.take(j + 1) =~= sj.push(ts[j as int]));
            }
            bump(&mut traditions, rows[i].traditions[j].clone());
            proof {
                lemma_tallies_push(d0, traditions@, sj, ts[j as int]);
            }
            j += 1;
        }
        proof {
            assert(ts.take(ts.len() as int) =~= ts);
        }
        i += 1;
    }
    proof {
        assert(rows@.take(rows@.len() as int) =~= rows@);
    }
    FacetSummary { periods, canons, origins, traditions }
}

} // verus!
