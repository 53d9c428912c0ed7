//! Deterministic ordering of the collected records: a stable sort by
//! interface name and, on request, one record per name with its highest
//! version.
use vstd::prelude::*;
use crate::laws::{lemma_sort_is_sorted, sorted_by_name};
use crate::order::{
    lemma_name_lt_total, lemma_name_lt_transitive, lemma_not_lt_transitive, name_less, name_lt,
};
use crate::record::{models, GlobalRecord};

verus! {

/// `x` placed after every record of the name-sorted `s` whose name does not
/// come after its own, and before the others.
pub open spec fn insert_by_name(s: Seq<(Seq<char>, u32)>, x: (Seq<char>, u32)) -> Seq<(Seq<char>, u32)>
    decreases s.len(),
{
    if s.len() == 0 {
        seq![x]
    } else if name_lt(x.0, s.last().0) {
        insert_by_name(s.drop_last(), x).push(s.last())
    } else {
        s.push(x)
    }
}

/// Stable sort by name: records of one name keep their order of arrival.
pub open spec fn sort_by_name(s: Seq<(Seq<char>, u32)>) -> Seq<(Seq<char>, u32)>
    decreases s.len(),
{
    if s.len() == 0 {
        s
    } else {
        insert_by_name(sort_by_name(s.drop_last()), s.last())
    }
}

/// Each run of neighbouring records with one name, as a single record with
/// the run's highest version.
pub open spec fn collapse_runs(s: Seq<(Seq<char>, u32)>) -> Seq<(Seq<char>, u32)>
    decreases s.len(),
{
    if s.len() == 0 {
        s
    } else {
        let c = collapse_runs(s.drop_last());
        let x = s.last();
        if c.len() > 0 && c.last().0 == x.0 {
            c.drop_last().push((x.0, if c.last().1 >= x.1 { c.last().1 } else { x.1 }))
        } else {
            c.push(x)
        }
    }
}

/// The normalized form of the records `s`.
pub open spec fn normalized(s: Seq<(Seq<char>, u32)>, dedup: bool) -> Seq<(Seq<char>, u32)> {
    if dedup {
        collapse_runs(sort_by_name(s))
    } else {
        sort_by_name(s)
    }
}

proof fn lemma_insert_by_name_at(s: Seq<(Seq<char>, u32)>, x: (Seq<char>, u32), p: int)
    requires
        0 <= p <= s.len(),
        forall|k: int| p <= k < s.len() ==> name_lt(x.0, #[trigger] s[k].0),
        p == 0 || !name_lt(x.0, s[p - 1].0),
    ensures
        insert_by_name(s, x) == s.subrange(0, p).push(x) + s.subrange(p, s.len() as int),
    decreases s.len(),
{
    if s.len() == 0 {
        assert(insert_by_name(s, x) =~= s.subrange(0, p).push(x) + s.subrange(p, s.len() as int));
    } else if p == s.len() {
        assert(insert_by_name(s, x) =~= s.subrange(0, p).push(x) + s.subrange(p, s.len() as int));
    } else {
        let d = s.drop_last();
        assert(name_lt(x.0, s[s.len() - 1].0));
        lemma_insert_by_name_at(d, x, p);
        assert(insert_by_name(s, x) =~= s.subrange(0, p).push(x) + s.subrange(p, s.len() as int));
    }
}

fn insert_record(r: &mut Vec<GlobalRecord>, x: GlobalRecord)
    requires
        sorted_by_name(models(old(r)@)),
    ensures
        models(final(r)@) == insert_by_name(models(old(r)@), x@),
{
    let ghost s = models(r@);
    let mut lo: usize = 0;
    let mut hi: usize = r.len();
    while lo < hi
        invariant
            s == models(r@),
            sorted_by_name(s),
            lo <= hi <= r@.len(),
            forall|k: int| 0 <= k < lo ==> !name_lt(x@.0, #[trigger] s[k].0),
            forall|k: int| hi <= k < r@.len() ==> name_lt(x@.0, #[trigger] s[k].0),
        decreases hi - lo,
    {
        let mid = lo + (hi - lo) / 2;
        if name_less(&x.interface, &r[mid].interface) {
            assert forall|k: int| mid <= k < r@.len() implies name_lt(x@.0, #[trigger] s[k].0) by {
                lemma_name_lt_total(s[k].0, s[mid as int].0);
                if k > mid && name_lt(s[mid as int].0, s[k].0) {
                    lemma_name_lt_transitive(x@.0, s[mid as int].0, s[k].0);
                }
            }
            hi = mid;
        } else {
            assert forall|k: int| 0 <= k <= mid implies !name_lt(x@.0, #[trigger] s[k].0) by {
                if k < mid {
                    lemma_not_lt_transitive(x@.0, s[mid as int].0, s[k].0);
                }
            }
            lo = mid + 1;
        }
    }
    proof {
        lemma_insert_by_name_at(s, x@, lo as int);
    }
    let ghost xm = x@;
    r.insert(lo, x);
    assert(models(r@) =~= s.subrange(0, lo as int).push(xm) + s.subrange(lo as int, s.len() as int));
}

fn sort_records(records: &Vec<GlobalRecord>) -> (r: Vec<GlobalRecord>)
    ensures
        models(r@) == sort_by_name(models(records@)),
{
    let mut r: Vec<GlobalRecord> = Vec::new();
    let mut i: usize = 0;
    assert(models(records@).subrange(0, 0) =~= Seq::<(Seq<char>, u32)>::empty());
    while i < records.len()
        invariant
            i <= records@.len(),
            models(r@) == sort_by_name(models(records@).subrange(0, i as int)),
        decreases records@.len() - i,
    {
        let x = records[i].duplicate();
        proof {
            let s = models(records@).subrange(0, i + 1);
            assert(s.drop_last() =~= models(records@).subrange(0, i as int));
            assert(s.last() == x@);
        }
        proof {
            lemma_sort_is_sorted(models(records@).subrange(0, i as int));
        }
        insert_record(&mut r, x);
        i = i + 1;
    }
    assert(models(records@).subrange(0, records@.len() as int) =~= models(records@));
    r
}

fn collapse_records(sorted: &Vec<GlobalRecord>) -> (r: Vec<GlobalRecord>)
    ensures
        models(r@) == collapse_runs(models(sorted@)),
{
    let mut out: Vec<GlobalRecord> = Vec::new();
    let mut i: usize = 0;
    assert(models(sorted@).subrange(0, 0) =~= Seq::<(Seq<char>, u32)>::empty());
    while i < sorted.len()
        invariant
            i <= sorted@.len(),
            models(out@) == collapse_runs(models(sorted@).subrange(0, i as int)),
        decreases sorted@.len() - i,
    {
        let ghost s = models(sorted@).subrange(0, i + 1);
        let ghost c = models(out@);
        proof {
            assert(s.drop_last() =~= models(sorted@).subrange(0, i as int));
        }
        let x = &sorted[i];
        let n = out.len();
        if n > 0 && out[n - 1].interface == x.interface {
            let mut last = out.pop().unwrap();
            if x.version > last.version {
                last.version = x.version;
            }
            out.push(last);
            assert(models(out@) =~= c.drop_last().push(
                (x@.0, if c.last().1 >= x@.1 { c.last().1 } else { x@.1 }),
            ));
        } else {
            out.push(x.duplicate());
            assert(models(out@) =~= c.push(x@));
        }
        i = i + 1;
    }
    assert(models(sorted@).subrange(0, sorted@.len() as int) =~= models(sorted@));
    out
}

/// The records sorted by interface name, stably; with `dedup`, one record per
/// name, carrying the highest version advertised for it. Since each run of
/// one name collapses to its maximum, no version tie-break is needed there.
pub fn normalize(records: &Vec<GlobalRecord>, dedup: bool) -> (r: Vec<GlobalRecord>)
    ensures
        models(r@) == normalized(models(records@), dedup),
{
    let sorted = sort_records(records);
    if dedup {
        collapse_records(&sorted)
    } else {
        sorted
    }
}

} // verus!
