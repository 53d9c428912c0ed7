//! What holds of the normalizer for every input.
use vstd::prelude::*;
use crate::normalize::{collapse_runs, insert_by_name, normalized, sort_by_name};
use crate::order::{
    lemma_name_lt_asymmetric, lemma_name_lt_irreflexive, lemma_name_lt_total,
    lemma_name_lt_transitive, lemma_not_lt_transitive, name_lt,
};

verus! {

/// No record is followed by one whose name comes before its own.
pub open spec fn sorted_by_name(s: Seq<(Seq<char>, u32)>) -> bool {
    forall|i: int, j: int| 0 <= i < j < s.len() ==> !name_lt(#[trigger] s[j].0, #[trigger] s[i].0)
}

/// Every record's name comes strictly before the names of the records after it.
pub open spec fn strictly_sorted_by_name(s: Seq<(Seq<char>, u32)>) -> bool {
    forall|i: int, j: int| 0 <= i < j < s.len() ==> name_lt(#[trigger] s[i].0, #[trigger] s[j].0)
}

/// No two records share a name.
pub open spec fn names_distinct(s: Seq<(Seq<char>, u32)>) -> bool {
    forall|i: int, j: int| 0 <= i < j < s.len() ==> #[trigger] s[i].0 != #[trigger] s[j].0
}

/// `best` updated with record `y`, for the name `n`.
pub open spec fn max_step(best: Option<u32>, y: (Seq<char>, u32), n: Seq<char>) -> Option<u32> {
    if y.0 == n {
        match best {
            Some(m) => Some(if m >= y.1 { m } else { y.1 }),
            None => Some(y.1),
        }
    } else {
        best
    }
}

/// The highest version among the records of `s` named `n`; `None` when no
/// record has that name.
pub open spec fn max_version(s: Seq<(Seq<char>, u32)>, n: Seq<char>) -> Option<u32>
    decreases s.len(),
{
    if s.len() == 0 {
        None
    } else {
        max_step(max_version(s.drop_last(), n), s.last(), n)
    }
}

proof fn lemma_max_version_insert(t: Seq<(Seq<char>, u32)>, x: (Seq<char>, u32), n: Seq<char>)
    ensures
        max_version(insert_by_name(t, x), n) == max_step(max_version(t, n), x, n),
    decreases t.len(),
{
    if t.len() > 0 && name_lt(x.0, t.last().0) {
        let d = t.drop_last();
        lemma_max_version_insert(d, x, n);
        assert(insert_by_name(t, x).drop_last() =~= insert_by_name(d, x));
    } else if t.len() == 0 {
        assert(seq![x].drop_last() =~= t);
    } else {
        assert(t.push(x).drop_last() =~= t);
    }
}

proof fn lemma_max_version_sort(s: Seq<(Seq<char>, u32)>, n: Seq<char>)
    ensures
        max_version(sort_by_name(s), n) == max_version(s, n),
    decreases s.len(),
{
    if s.len() > 0 {
        lemma_max_version_sort(s.drop_last(), n);
        lemma_max_version_insert(sort_by_name(s.drop_last()), s.last(), n);
    }
}

proof fn lemma_max_version_collapse(t: Seq<(Seq<char>, u32)>)
    requires
        sorted_by_name(t),
    ensures
        forall|k: int| 0 <= k < collapse_runs(t).len()
            ==> max_version(t, #[trigger] collapse_runs(t)[k].0) == Some(collapse_runs(t)[k].1),
        forall|n: Seq<char>| #[trigger] max_version(t, n) is Some
            ==> exists|k: int| 0 <= k < collapse_runs(t).len() && collapse_runs(t)[k].0 == n,
    decreases t.len(),
{
    if t.len() > 0 {
        let d = t.drop_last();
        let x = t.last();
        assert(sorted_by_name(d));
        lemma_max_version_collapse(d);
        lemma_collapse_of_sorted(d);
        let c = collapse_runs(d);
        let r = collapse_runs(t);
        if c.len() > 0 && c.last().0 == x.0 {
            assert forall|k: int| 0 <= k < r.len() implies max_version(t, #[trigger] r[k].0) == Some(r[k].1) by {
                if k < r.len() - 1 {
                    assert(r[k] == c[k]);
                    assert(name_lt(c[k].0, c[c.len() - 1].0));
                    lemma_name_lt_irreflexive(x.0);
                    assert(max_version(d, c[k].0) == Some(c[k].1));
                } else {
                    assert(max_version(d, c[c.len() - 1].0) == Some(c[c.len() - 1].1));
                }
            }
            assert forall|n: Seq<char>| #[trigger] max_version(t, n) is Some implies exists|k: int| 0 <= k < r.len() && r[k].0 == n by {
                if n == x.0 {
                    assert(r[r.len() - 1].0 == n);
                } else {
                    assert(max_version(d, n) is Some);
                    let k = choose|k: int| 0 <= k < c.len() && c[k].0 == n;
                    assert(r[k] == c[k]);
                }
            }
        } else {
            if c.len() > 0 {
                assert(!name_lt(t[t.len() - 1].0, t[t.len() - 2].0));
                lemma_name_lt_total(c.last().0, x.0);
            }
            assert forall|k: int| 0 <= k < c.len() implies #[trigger] c[k].0 != x.0 by {
                if k < c.len() - 1 {
                    lemma_name_lt_transitive(c[k].0, c[c.len() - 1].0, x.0);
                }
                lemma_name_lt_irreflexive(x.0);
            }
            if max_version(d, x.0) is Some {
                let k = choose|k: int| 0 <= k < c.len() && c[k].0 == x.0;
                assert(c[k].0 != x.0);
            }
            assert forall|k: int| 0 <= k < r.len() implies max_version(t, #[trigger] r[k].0) == Some(r[k].1) by {
                if k < r.len() - 1 {
                    assert(r[k] == c[k]);
                    assert(max_version(d, c[k].0) == Some(c[k].1));
                }
            }
            assert forall|n: Seq<char>| #[trigger] max_version(t, n) is Some implies exists|k: int| 0 <= k < r.len() && r[k].0 == n by {
                if n == x.0 {
                    assert(r[r.len() - 1].0 == n);
                } else {
                    assert(max_version(d, n) is Some);
                    let k = choose|k: int| 0 <= k < c.len() && c[k].0 == n;
                    assert(r[k] == c[k]);
                }
            }
        }
    }
}

proof fn lemma_insert_contents(s: Seq<(Seq<char>, u32)>, x: (Seq<char>, u32))
    ensures
        insert_by_name(s, x).len() == s.len() + 1,
        forall|k: int| 0 <= k < s.len() + 1 ==> #[trigger] insert_by_name(s, x)[k] == x
            || s.contains(insert_by_name(s, x)[k]),
    decreases s.len(),
{
    if s.len() > 0 && name_lt(x.0, s.last().0) {
        let d = s.drop_last();
        lemma_insert_contents(d, x);
        assert forall|k: int| 0 <= k < s.len() + 1 implies #[trigger] insert_by_name(s, x)[k] == x
            || s.contains(insert_by_name(s, x)[k]) by {
            if k < s.len() {
                let e = insert_by_name(d, x)[k];
                if e != x {
                    let j = choose|j: int| 0 <= j < d.len() && d[j] == e;
                    assert(s[j] == e);
                }
            } else {
                assert(s[s.len() - 1] == s.last());
            }
        }
    }
}

proof fn lemma_insert_keeps_sorted(s: Seq<(Seq<char>, u32)>, x: (Seq<char>, u32))
    requires
        sorted_by_name(s),
    ensures
        sorted_by_name(insert_by_name(s, x)),
    decreases s.len(),
{
    if s.len() == 0 {
    } else if name_lt(x.0, s.last().0) {
        let d = s.drop_last();
        let last = s.last();
        lemma_insert_keeps_sorted(d, x);
        lemma_insert_contents(d, x);
        let t = insert_by_name(d, x);
        assert forall|i: int| 0 <= i < t.len() implies !name_lt(last.0, #[trigger] t[i].0) by {
            if t[i] == x {
                lemma_name_lt_asymmetric(x.0, last.0);
            } else {
                let j = choose|j: int| 0 <= j < d.len() && d[j] == t[i];
                assert(s[j] == t[i]);
                assert(s[s.len() - 1] == last);
            }
        }
        assert(sorted_by_name(t.push(last)));
    } else {
        assert forall|i: int| 0 <= i < s.len() implies !name_lt(x.0, #[trigger] s[i].0) by {
            if i < s.len() - 1 {
                lemma_not_lt_transitive(x.0, s[s.len() - 1].0, s[i].0);
            }
        }
        assert(sorted_by_name(s.push(x)));
    }
}

/// The stable sort by name yields records sorted by name.
pub proof fn lemma_sort_is_sorted(s: Seq<(Seq<char>, u32)>)
    ensures
        sorted_by_name(sort_by_name(s)),
    decreases s.len(),
{
    if s.len() > 0 {
        lemma_sort_is_sorted(s.drop_last());
        lemma_insert_keeps_sorted(sort_by_name(s.drop_last()), s.last());
    }
}

/// Records already sorted by name are left as they are.
pub proof fn lemma_sort_of_sorted(s: Seq<(Seq<char>, u32)>)
    requires
        sorted_by_name(s),
    ensures
        sort_by_name(s) == s,
    decreases s.len(),
{
    if s.len() > 0 {
        let d = s.drop_last();
        assert(sorted_by_name(d));
        lemma_sort_of_sorted(d);
        if d.len() > 0 {
            assert(!name_lt(s[s.len() - 1].0, s[s.len() - 2].0));
        }
        assert(d.push(s.last()) =~= s);
    }
}

proof fn lemma_collapse_of_sorted(s: Seq<(Seq<char>, u32)>)
    requires
        sorted_by_name(s),
    ensures
        strictly_sorted_by_name(collapse_runs(s)),
        s.len() > 0 ==> collapse_runs(s).len() > 0 && collapse_runs(s).last().0 == s.last().0,
    decreases s.len(),
{
    if s.len() > 0 {
        let d = s.drop_last();
        let x = s.last();
        assert(sorted_by_name(d));
        lemma_collapse_of_sorted(d);
        let c = collapse_runs(d);
        if c.len() > 0 && c.last().0 == x.0 {
            let m = if c.last().1 >= x.1 { c.last().1 } else { x.1 };
            let r = c.drop_last().push((x.0, m));
            assert forall|i: int, j: int| 0 <= i < j < r.len() implies name_lt(#[trigger] r[i].0, #[trigger] r[j].0) by {
                assert(c[i].0 == r[i].0);
                assert(c[j].0 == r[j].0);
            }
        } else if c.len() > 0 {
            assert(!name_lt(s[s.len() - 1].0, s[s.len() - 2].0));
            lemma_name_lt_total(c.last().0, x.0);
            let r = c.push(x);
            assert forall|i: int, j: int| 0 <= i < j < r.len() implies name_lt(#[trigger] r[i].0, #[trigger] r[j].0) by {
                if j == r.len() - 1 && i < c.len() - 1 {
                    lemma_name_lt_transitive(c[i].0, c[c.len() - 1].0, x.0);
                }
            }
        }
    }
}

proof fn lemma_collapse_of_strictly_sorted(s: Seq<(Seq<char>, u32)>)
    requires
        strictly_sorted_by_name(s),
    ensures
        collapse_runs(s) == s,
    decreases s.len(),
{
    if s.len() > 0 {
        let d = s.drop_last();
        assert(strictly_sorted_by_name(d));
        lemma_collapse_of_strictly_sorted(d);
        if d.len() > 0 {
            assert(name_lt(s[s.len() - 2].0, s[s.len() - 1].0));
            lemma_name_lt_irreflexive(s[s.len() - 1].0);
        }
        assert(d.push(s.last()) =~= s);
    }
}

proof fn lemma_strictly_sorted_is_sorted(s: Seq<(Seq<char>, u32)>)
    requires
        strictly_sorted_by_name(s),
    ensures
        sorted_by_name(s),
        names_distinct(s),
{
    assert forall|i: int, j: int| 0 <= i < j < s.len() implies !name_lt(#[trigger] s[j].0, #[trigger] s[i].0) by {
        lemma_name_lt_asymmetric(s[i].0, s[j].0);
    }
    assert forall|i: int, j: int| 0 <= i < j < s.len() implies #[trigger] s[i].0 != #[trigger] s[j].0 by {
        lemma_name_lt_irreflexive(s[i].0);
    }
}

/// Normalizing no records gives no records, with or without dedup.
pub proof fn lemma_normalize_empty(dedup: bool)
    ensures
        normalized(Seq::empty(), dedup) == Seq::<(Seq<char>, u32)>::empty(),
{
}

/// Without dedup the output is sorted by name, and normalizing it again
/// changes nothing.
pub proof fn lemma_plain_normalize_idempotent(s: Seq<(Seq<char>, u32)>)
    ensures
        sorted_by_name(normalized(s, false)),
        normalized(normalized(s, false), false) == normalized(s, false),
{
    lemma_sort_is_sorted(s);
    lemma_sort_of_sorted(sort_by_name(s));
}

/// With dedup the output's names are distinct and ascending.
pub proof fn lemma_dedup_names_distinct(s: Seq<(Seq<char>, u32)>)
    ensures
        strictly_sorted_by_name(normalized(s, true)),
        names_distinct(normalized(s, true)),
{
    lemma_sort_is_sorted(s);
    lemma_collapse_of_sorted(sort_by_name(s));
    lemma_strictly_sorted_is_sorted(normalized(s, true));
}

/// With dedup each output record carries the highest version that the input
/// advertised for its name, and every name of the input has an output record.
pub proof fn lemma_dedup_keeps_maximum(s: Seq<(Seq<char>, u32)>)
    ensures
        forall|k: int| 0 <= k < normalized(s, true).len()
            ==> max_version(s, #[trigger] normalized(s, true)[k].0) == Some(normalized(s, true)[k].1),
        forall|n: Seq<char>| #[trigger] max_version(s, n) is Some
            ==> exists|k: int| 0 <= k < normalized(s, true).len() && normalized(s, true)[k].0 == n,
{
    let t = sort_by_name(s);
    lemma_sort_is_sorted(s);
    lemma_max_version_collapse(t);
    assert forall|n: Seq<char>| #[trigger] max_version(s, n) == max_version(t, n) by {
        lemma_max_version_sort(s, n);
    }
}

/// Normalizing with dedup a second time changes nothing.
pub proof fn lemma_dedup_normalize_idempotent(s: Seq<(Seq<char>, u32)>)
    ensures
        normalized(normalized(s, true), true) == normalized(s, true),
{
    let c = normalized(s, true);
    lemma_dedup_names_distinct(s);
    lemma_strictly_sorted_is_sorted(c);
    lemma_sort_of_sorted(c);
    lemma_collapse_of_strictly_sorted(c);
}

} // verus!
