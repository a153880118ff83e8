//! Grouping a flat list of route records into date-keyed sets: a pure
//! transform with no failure modes of its own.
//!
//! The grouping key is the raw `date` string. Keys are kept in the order
//! they are first seen, and within a group the records keep their input
//! order, so the output is deterministic even though nothing downstream
//! depends on the order of the sets.

use crate::date::{date_of_chars, date_of_str, Date};
use crate::problem::ProblemData;
use crate::store::StoreError;
use vstd::multiset::Multiset;
use vstd::prelude::*;

verus! {

/// The distinct raw date strings of `ps`, in first-seen order.
pub open spec fn date_keys(ps: Seq<ProblemData>) -> Seq<Seq<char>>
    decreases ps.len(),
{
    if ps.len() == 0 {
        Seq::<Seq<char>>::empty()
    } else {
        let rest = date_keys(ps.drop_last());
        if rest.contains(ps.last().date@) {
            rest
        } else {
            rest.push(ps.last().date@)
        }
    }
}

/// Whether a record's raw date string is `k`.
pub open spec fn has_date(k: Seq<char>) -> spec_fn(ProblemData) -> bool {
    |p: ProblemData| p.date@ == k
}

/// The records of `ps` whose raw date string is `k`, in input order.
pub open spec fn group_of(ps: Seq<ProblemData>, k: Seq<char>) -> Seq<ProblemData> {
    ps.filter(has_date(k))
}

/// A date string occurs among the keys exactly when some record bears it.
pub proof fn lemma_date_keys_complete(ps: Seq<ProblemData>, k: Seq<char>)
    ensures
        date_keys(ps).contains(k) <==> exists|i: int| 0 <= i < ps.len() && ps[i].date@ == k,
    decreases ps.len(),
{
    if ps.len() > 0 {
        lemma_date_keys_complete(ps.drop_last(), k);
        let rest = date_keys(ps.drop_last());
        if date_keys(ps).contains(k) {
            if rest.contains(k) {
                let i = choose|i: int| 0 <= i < ps.drop_last().len() && ps.drop_last()[i].date@
                    == k;
                assert(ps[i].date@ == k);
            } else {
                assert(date_keys(ps) == rest.push(ps.last().date@));
                let t = choose|t: int| 0 <= t < date_keys(ps).len() && date_keys(ps)[t] == k;
                if t < rest.len() {
                    assert(rest[t] == k);
                    assert(rest.contains(k));
                } else {
                    assert(ps[ps.len() - 1].date@ == k);
                }
            }
        }
        if exists|i: int| 0 <= i < ps.len() && ps[i].date@ == k {
            let i = choose|i: int| 0 <= i < ps.len() && ps[i].date@ == k;
            if i < ps.len() - 1 {
                assert(ps.drop_last()[i].date@ == k);
                assert(rest.contains(k));
                if rest.contains(ps.last().date@) {
                } else {
                    assert(date_keys(ps) == rest.push(ps.last().date@));
                    let t = choose|t: int| 0 <= t < rest.len() && rest[t] == k;
                    assert(date_keys(ps)[t] == k);
                }
            } else {
                if rest.contains(ps.last().date@) {
                    let t = choose|t: int| 0 <= t < rest.len() && rest[t] == ps.last().date@;
                    assert(date_keys(ps)[t] == k);
                } else {
                    assert(date_keys(ps).last() == k);
                }
            }
        }
    }
}

/// The keys are distinct: no raw date string occurs twice.
pub proof fn lemma_date_keys_distinct(ps: Seq<ProblemData>, j1: int, j2: int)
    requires
        0 <= j1 < date_keys(ps).len(),
        0 <= j2 < date_keys(ps).len(),
        j1 != j2,
    ensures
        date_keys(ps)[j1] != date_keys(ps)[j2],
    decreases ps.len(),
{
    if ps.len() > 0 {
        let rest = date_keys(ps.drop_last());
        if rest.contains(ps.last().date@) {
            lemma_date_keys_distinct(ps.drop_last(), j1, j2);
        } else {
            assert(date_keys(ps) == rest.push(ps.last().date@));
            if j1 < rest.len() && j2 < rest.len() {
                lemma_date_keys_distinct(ps.drop_last(), j1, j2);
            } else if j1 < rest.len() {
                assert(date_keys(ps)[j2] == ps.last().date@);
                assert(rest[j1] == date_keys(ps)[j1]);
                assert(rest.contains(rest[j1]));
            } else {
                assert(date_keys(ps)[j1] == ps.last().date@);
                assert(rest[j2] == date_keys(ps)[j2]);
                assert(rest.contains(rest[j2]));
            }
        }
    }
}

/// A key no record bears selects an empty group.
proof fn lemma_group_of_absent(ps: Seq<ProblemData>, k: Seq<char>)
    requires
        forall|i: int| 0 <= i < ps.len() ==> (#[trigger] ps[i]).date@ != k,
    ensures
        group_of(ps, k) == Seq::<ProblemData>::empty(),
    decreases ps.len(),
{
    if ps.len() == 0 {
        ps.lemma_filter_len(has_date(k));
        assert(ps.filter(has_date(k)) =~= Seq::<ProblemData>::empty());
    } else {
        assert(forall|i: int|
            0 <= i < ps.drop_last().len() ==> (#[trigger] ps.drop_last()[i]).date@ != k);
        lemma_group_of_absent(ps.drop_last(), k);
        ps.drop_last().lemma_filter_push(ps.last(), has_date(k));
        assert(ps.drop_last().push(ps.last()) =~= ps);
        assert(ps.last().date@ != k);
        assert(!has_date(k)(ps.last()));
    }
}

/// A set of routes published on one date: the parsed date and the routes,
/// in the order they were encountered.
#[derive(Debug)]
pub struct SetData {
    problems: Vec<ProblemData>,
    pub date: Date,
}

impl SetData {
    /// The routes of this set.
    pub closed spec fn spec_problems(&self) -> Seq<ProblemData> {
        self.problems@
    }

    /// The date of this set.
    pub closed spec fn spec_date(&self) -> Date {
        self.date
    }

    pub fn new(problems: Vec<ProblemData>, date: Date) -> (s: SetData)
        ensures
            s.spec_problems() == problems@,
            s.spec_date() == date,
    {
        SetData { problems, date }
    }

    /// Read access to the routes of this set.
    pub fn problems(&self) -> (r: &Vec<ProblemData>)
        ensures
            r@ == self.spec_problems(),
    {
        &self.problems
    }
}

/// What a correct grouping of `ps` looks like: one set per distinct raw
/// date string, in first-seen order; each set holds exactly the records
/// bearing its key, in input order, under the parsed form of that key.
pub open spec fn grouping_ok(ps: Seq<ProblemData>, r: Seq<SetData>) -> bool {
    &&& r.len() == date_keys(ps).len()
    &&& forall|j: int|
        0 <= j < r.len() ==> (#[trigger] r[j]).spec_problems() == group_of(ps, date_keys(ps)[j])
    &&& forall|j: int|
        0 <= j < r.len() ==> (#[trigger] r[j]).spec_date() == date_of_chars(date_keys(ps)[j])
}

/// The views of a list of owned key strings.
pub open spec fn key_views(ks: Seq<String>) -> Seq<Seq<char>> {
    ks.map_values(|k: String| k@)
}

/// Groups a flat list of route records into one set per distinct raw date
/// string. Pure and total: it cannot fail.
pub fn group_into_sets(problems: Vec<ProblemData>) -> (r: Vec<SetData>)
    ensures
        grouping_ok(problems@, r@),
{
    let mut keys: Vec<String> = Vec::new();
    let mut groups: Vec<Vec<ProblemData>> = Vec::new();
    let mut i: usize = 0;
    proof {
        assert(problems@.take(0) =~= Seq::<ProblemData>::empty());
    }
    while i < problems.len()
        invariant
            0 <= i <= problems@.len(),
            keys@.len() == groups@.len(),
            key_views(keys@) == date_keys(problems@.take(i as int)),
            forall|j: int|
                0 <= j < groups@.len() ==> (#[trigger] groups@[j])@ == group_of(
                    problems@.take(i as int),
                    keys@[j]@,
                ),
        decreases problems@.len() - i,
    {
        let ghost prev = problems@.take(i as int);
        let p = problems[i].clone();
        proof {
            assert(problems@.take(i as int + 1).drop_last() =~= prev);
            assert(problems@.take(i as int + 1).last() == problems@[i as int]);
            assert(p == problems@[i as int]);
        }
        let ghost cur = problems@.take(i as int + 1);
        let mut j: usize = 0;
        let mut found: bool = false;
        let mut fidx: usize = 0;
        while j < keys.len()
            invariant
                0 <= j <= keys@.len(),
                !found ==> forall|t: int| 0 <= t < j ==> (#[trigger] keys@[t])@ != p.date@,
                found ==> fidx < keys@.len() && keys@[fidx as int]@ == p.date@,
            decreases keys@.len() - j,
        {
            if !found && keys[j] == p.date {
                found = true;
                fidx = j;
            }
            j += 1;
        }
        let ghost keys0 = keys@;
        let ghost groups0 = groups@;
        if found {
            proof {
                assert(key_views(keys0)[fidx as int] == keys0[fidx as int]@);
                assert(key_views(keys0).contains(p.date@));
                assert(date_keys(cur) == key_views(keys0));
            }
            let mut g = groups.remove(fidx);
            let ghost gold = g@;
            g.push(p);
            groups.insert(fidx, g);
            proof {
                assert(groups@.len() == groups0.len());
                assert(groups@[fidx as int]@ == gold.push(p));
                assert forall|t: int| 0 <= t < groups@.len() && t != fidx as int implies
                    groups@[t] == groups0[t] by {}
                assert forall|t: int| 0 <= t < groups@.len() implies (#[trigger] groups@[t])@
                    == group_of(cur, keys@[t]@) by {
                    prev.lemma_filter_push(p, has_date(keys0[t]@));
                    assert(prev.push(p) =~= cur);
                    if t == fidx as int {
                        assert(keys0[t]@ == p.date@);
                        assert(has_date(keys0[t]@)(p));
                        assert(groups@[t]@ == gold.push(p));
                    } else {
                        lemma_date_keys_distinct(prev, t, fidx as int);
                        assert(keys0[t]@ != p.date@);
                        assert(!has_date(keys0[t]@)(p));
                        assert(groups@[t] == groups0[t]);
                    }
                }
            }
        } else {
            proof {
                if key_views(keys0).contains(p.date@) {
                    let t = choose|t: int|
                        0 <= t < key_views(keys0).len() && key_views(keys0)[t] == p.date@;
                    assert(keys0[t]@ == p.date@);
                }
                assert(!key_views(keys0).contains(p.date@));
                assert(date_keys(cur) == date_keys(prev).push(p.date@));
            }
            let k = p.date.clone();
            keys.push(k);
            let mut g: Vec<ProblemData> = Vec::new();
            g.push(p);
            groups.push(g);
            proof {
                assert(key_views(keys@) =~= key_views(keys0).push(p.date@));
                lemma_date_keys_complete(prev, p.date@);
                assert forall|t: int| 0 <= t < prev.len() implies (#[trigger] prev[t]).date@
                    != p.date@ by {}
                lemma_group_of_absent(prev, p.date@);
                assert forall|t: int| 0 <= t < groups@.len() implies (#[trigger] groups@[t])@
                    == group_of(cur, keys@[t]@) by {
                    prev.lemma_filter_push(p, has_date(keys@[t]@));
                    assert(prev.push(p) =~= cur);
                    if t == keys0.len() as int {
                        assert(keys@[t]@ == p.date@);
                        assert(has_date(keys@[t]@)(p));
                        assert(groups@[t]@ =~= Seq::<ProblemData>::empty().push(p));
                        assert(group_of(cur, p.date@) == group_of(prev, p.date@).push(p));
                    } else {
                        assert(keys@[t] == keys0[t]);
                        assert(groups@[t] == groups0[t]);
                        assert(keys0[t]@ != p.date@);
                        assert(!has_date(keys@[t]@)(p));
                    }
                }
            }
        }
        i += 1;
    }
    proof {
        assert(problems@.take(problems@.len() as int) =~= problems@);
    }
    let ghost allkeys = date_keys(problems@);
    let mut r: Vec<SetData> = Vec::new();
    while keys.len() > 0
        invariant
            keys@.len() == groups@.len(),
            r@.len() + keys@.len() == allkeys.len(),
            forall|j: int|
                0 <= j < keys@.len() ==> (#[trigger] keys@[j])@ == allkeys[r@.len() + j],
            forall|j: int|
                0 <= j < groups@.len() ==> (#[trigger] groups@[j])@ == group_of(
                    problems@,
                    allkeys[r@.len() + j],
                ),
            forall|j: int|
                0 <= j < r@.len() ==> (#[trigger] r@[j]).spec_problems() == group_of(
                    problems@,
                    allkeys[j],
                ),
            forall|j: int|
                0 <= j < r@.len() ==> (#[trigger] r@[j]).spec_date() == date_of_chars(allkeys[j]),
        decreases keys@.len(),
    {
        let k = keys.remove(0);
        let g = groups.remove(0);
        let d = date_of_str(k.as_str());
        r.push(SetData::new(g, d));
    }
    r
}

/// A record belongs to the set of key `j` exactly when it occurs in the
/// input and bears that key's raw date string.
pub proof fn lemma_group_member(ps: Seq<ProblemData>, j: int, p: ProblemData)
    requires
        0 <= j < date_keys(ps).len(),
    ensures
        group_of(ps, date_keys(ps)[j]).contains(p) <==> ps.contains(p) && p.date@ == date_keys(
            ps,
        )[j],
{
    let k = date_keys(ps)[j];
    if group_of(ps, k).contains(p) {
        let i = choose|i: int| 0 <= i < group_of(ps, k).len() && group_of(ps, k)[i] == p;
        ps.lemma_filter_pred(has_date(k), i);
        ps.lemma_filter_contains_rev(has_date(k), p);
    }
    if ps.contains(p) && p.date@ == k {
        let i = choose|i: int| 0 <= i < ps.len() && ps[i] == p;
        ps.lemma_filter_contains(has_date(k), i);
    }
}

/// Two routes that landed in sets of a grouping share one set exactly
/// when their raw date strings are identical: same date string, same set;
/// different date strings, different sets.
pub proof fn lemma_same_date_same_set(
    ps: Seq<ProblemData>,
    r: Seq<SetData>,
    j1: int,
    j2: int,
    p1: ProblemData,
    p2: ProblemData,
)
    requires
        grouping_ok(ps, r),
        0 <= j1 < r.len(),
        0 <= j2 < r.len(),
        r[j1].spec_problems().contains(p1),
        r[j2].spec_problems().contains(p2),
    ensures
        p1.date@ == p2.date@ <==> j1 == j2,
{
    assert(r[j1].spec_problems() == group_of(ps, date_keys(ps)[j1]));
    assert(r[j2].spec_problems() == group_of(ps, date_keys(ps)[j2]));
    lemma_group_member(ps, j1, p1);
    lemma_group_member(ps, j2, p2);
    if j1 != j2 {
        lemma_date_keys_distinct(ps, j1, j2);
    }
}

/// The records of all the groups with keys before `n`, as one multiset.
spec fn groups_multiset(ps: Seq<ProblemData>, n: int) -> Multiset<ProblemData>
    decreases n,
{
    if n <= 0 {
        Multiset::<ProblemData>::empty()
    } else {
        groups_multiset(ps, n - 1).add(group_of(ps, date_keys(ps)[n - 1]).to_multiset())
    }
}

/// How often a record occurs in one group: as often as in the input when
/// it bears the group's key, else not at all.
proof fn lemma_group_of_count(ps: Seq<ProblemData>, k: Seq<char>, x: ProblemData)
    ensures
        group_of(ps, k).to_multiset().count(x) == if x.date@ == k {
            ps.to_multiset().count(x)
        } else {
            0
        },
    decreases ps.len(),
{
    broadcast use vstd::multiset::group_multiset_axioms;

    if ps.len() == 0 {
        ps.lemma_filter_len(has_date(k));
        assert(group_of(ps, k) =~= Seq::<ProblemData>::empty());
        ps.to_multiset_ensures();
        group_of(ps, k).to_multiset_ensures();
        assert(!ps.contains(x));
        assert(!group_of(ps, k).contains(x));
    } else {
        let rest = ps.drop_last();
        let e = ps.last();
        lemma_group_of_count(rest, k, x);
        rest.lemma_filter_push(e, has_date(k));
        assert(rest.push(e) =~= ps);
        vstd::seq_lib::to_multiset_build(rest, e);
        vstd::multiset::lemma_insert_increases_count_by_1(rest.to_multiset(), e);
        vstd::multiset::lemma_insert_other_elements_unchanged(rest.to_multiset(), e, x);
        if has_date(k)(e) {
            vstd::seq_lib::to_multiset_build(rest.filter(has_date(k)), e);
            vstd::multiset::lemma_insert_increases_count_by_1(
                rest.filter(has_date(k)).to_multiset(),
                e,
            );
            vstd::multiset::lemma_insert_other_elements_unchanged(
                rest.filter(has_date(k)).to_multiset(),
                e,
                x,
            );
        }
    }
}

/// How often a record occurs among the first `n` groups together.
proof fn lemma_groups_multiset_count(ps: Seq<ProblemData>, n: int, x: ProblemData)
    requires
        0 <= n <= date_keys(ps).len(),
    ensures
        groups_multiset(ps, n).count(x) == if exists|j: int|
            0 <= j < n && date_keys(ps)[j] == x.date@ {
            ps.to_multiset().count(x)
        } else {
            0
        },
    decreases n,
{
    broadcast use vstd::multiset::group_multiset_axioms;

    if n > 0 {
        lemma_groups_multiset_count(ps, n - 1, x);
        lemma_group_of_count(ps, date_keys(ps)[n - 1], x);
        if date_keys(ps)[n - 1] == x.date@ {
            if exists|j: int| 0 <= j < n - 1 && date_keys(ps)[j] == x.date@ {
                let j = choose|j: int| 0 <= j < n - 1 && date_keys(ps)[j] == x.date@;
                lemma_date_keys_distinct(ps, j, n - 1);
            }
            assert(exists|j: int| 0 <= j < n && date_keys(ps)[j] == x.date@) by {
                assert(date_keys(ps)[n - 1] == x.date@);
            }
        } else {
            if exists|j: int| 0 <= j < n && date_keys(ps)[j] == x.date@ {
                let j = choose|j: int| 0 <= j < n && date_keys(ps)[j] == x.date@;
                assert(0 <= j < n - 1 && date_keys(ps)[j] == x.date@);
            }
        }
    }
}

/// Taken together, the groups hold exactly the input records.
proof fn lemma_groups_multiset_total(ps: Seq<ProblemData>)
    ensures
        groups_multiset(ps, date_keys(ps).len() as int) == ps.to_multiset(),
{
    broadcast use vstd::multiset::group_multiset_axioms;

    let n = date_keys(ps).len() as int;
    assert forall|x: ProblemData|
        groups_multiset(ps, n).count(x) == ps.to_multiset().count(x) by {
        lemma_groups_multiset_count(ps, n, x);
        lemma_date_keys_complete(ps, x.date@);
        if exists|j: int| 0 <= j < n && date_keys(ps)[j] == x.date@ {
        } else {
            assert(!date_keys(ps).contains(x.date@));
            ps.to_multiset_ensures();
            if ps.to_multiset().count(x) > 0 {
                assert(ps.contains(x));
                let i = choose|i: int| 0 <= i < ps.len() && ps[i] == x;
                assert(ps[i].date@ == x.date@);
            }
        }
    }
    assert(groups_multiset(ps, n) =~= ps.to_multiset());
}

/// The records of the first `n` sets of a grouping, as one multiset.
pub open spec fn sets_records_multiset(r: Seq<SetData>, n: int) -> Multiset<ProblemData>
    decreases n,
{
    if n <= 0 {
        Multiset::<ProblemData>::empty()
    } else {
        sets_records_multiset(r, n - 1).add(r[n - 1].spec_problems().to_multiset())
    }
}

proof fn lemma_sets_records_multiset_eq(ps: Seq<ProblemData>, r: Seq<SetData>, n: int)
    requires
        grouping_ok(ps, r),
        0 <= n <= r.len(),
    ensures
        sets_records_multiset(r, n) == groups_multiset(ps, n),
    decreases n,
{
    if n > 0 {
        lemma_sets_records_multiset_eq(ps, r, n - 1);
        assert(r[n - 1].spec_problems() == group_of(ps, date_keys(ps)[n - 1]));
    }
}

/// Grouping is a partition: taken together, the sets hold exactly the
/// input records, each as often as it was put in; every input record lies
/// in some set, in no more than one set, and only in a set whose date is
/// the parsed form of the record's own raw date string.
pub proof fn lemma_grouping_partition(ps: Seq<ProblemData>, r: Seq<SetData>)
    requires
        grouping_ok(ps, r),
    ensures
        sets_records_multiset(r, r.len() as int) == ps.to_multiset(),
        forall|i: int|
            0 <= i < ps.len() ==> exists|j: int|
                0 <= j < r.len() && r[j].spec_problems().contains(#[trigger] ps[i]),
        forall|i: int, j1: int, j2: int|
            0 <= i < ps.len() && 0 <= j1 < r.len() && 0 <= j2 < r.len() && #[trigger] r[j1].spec_problems().contains(ps[i]) && #[trigger] r[j2].spec_problems().contains(ps[i])
                ==> j1 == j2,
        forall|j: int, p: ProblemData|
            0 <= j < r.len() && #[trigger] r[j].spec_problems().contains(p) ==> ps.contains(p)
                && r[j].spec_date() == date_of_chars(p.date@),
{
    lemma_groups_multiset_total(ps);
    lemma_sets_records_multiset_eq(ps, r, r.len() as int);
    assert forall|i: int| 0 <= i < ps.len() implies exists|j: int|
        0 <= j < r.len() && r[j].spec_problems().contains(#[trigger] ps[i]) by {
        lemma_date_keys_complete(ps, ps[i].date@);
        assert(date_keys(ps).contains(ps[i].date@)) by {
            assert(ps[i].date@ == ps[i].date@);
        }
        let j = choose|j: int|
            0 <= j < date_keys(ps).len() && date_keys(ps)[j] == ps[i].date@;
        lemma_group_member(ps, j, ps[i]);
        assert(ps.contains(ps[i]));
        assert(r[j].spec_problems() == group_of(ps, date_keys(ps)[j]));
        assert(r[j].spec_problems().contains(ps[i]));
    }
    assert forall|i: int, j1: int, j2: int|
        0 <= i < ps.len() && 0 <= j1 < r.len() && 0 <= j2 < r.len() && #[trigger] r[j1].spec_problems().contains(ps[i]) && #[trigger] r[j2].spec_problems().contains(ps[i])
            implies j1 == j2 by {
        if j1 != j2 {
            lemma_same_date_same_set(ps, r, j1, j2, ps[i], ps[i]);
        }
    }
    assert forall|j: int, p: ProblemData|
        0 <= j < r.len() && #[trigger] r[j].spec_problems().contains(p) implies ps.contains(p)
            && r[j].spec_date() == date_of_chars(p.date@) by {
        assert(r[j].spec_problems() == group_of(ps, date_keys(ps)[j]));
        lemma_group_member(ps, j, p);
        assert(p.date@ == date_keys(ps)[j]);
    }
}

/// Groups whatever a store read produced; a failed read degrades to an
/// empty list of sets rather than an error.
pub fn get_sets(fetched: Result<Vec<ProblemData>, StoreError>) -> (r: Vec<SetData>)
    ensures
        match fetched {
            Ok(problems) => grouping_ok(problems@, r@),
            Err(_) => r@.len() == 0,
        },
{
    match fetched {
        Ok(problems) => group_into_sets(problems),
        Err(_) => Vec::new(),
    }
}

} // verus!
