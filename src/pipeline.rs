use vstd::prelude::*;

use crate::entry::{min_int, value_in_range, Agg, MAX_MAGNITUDE};
use crate::fixed::{digits_value, field_value};
use crate::scan::{
    after, aggregate, chunker, find_from, first_bad, lemma_aggregate_split, lemma_find_from_bounds,
    lemma_find_from_prefix, lemma_partition_coverage, lemma_ranges_tile, line_end, line_ok, line_record,
    mapper, partition, partition_spec, range_ints, ranges_from, records, scan_step, span_end,
    step_records, tiles, within, ParseError, NEWLINE,
};
use crate::report::{report, row_text, sorted_keys_of};
use crate::table::{merge, merge_fits, merge_maps, mergeable, FnvTable, MergeOverflow};

verus! {

proof fn lemma_find_from_split(b: Seq<u8>, d: u8, s: int, m: int, n: int)
    requires
        s <= m < n,
        b[m] == d,
    ensures
        find_from(b, d, s, n) == find_from(b, d, s, m),
    decreases m - s,
{
    if s < m && b[s] != d {
        lemma_find_from_split(b, d, s + 1, m, n);
    }
}

proof fn lemma_first_bad_bound(b: Seq<u8>, s: int, e: int)
    ensures
        s <= e ==> first_bad(b, s, e) <= e,
    decreases e - s,
{
    if s < e {
        let nl = line_end(b, s, e);
        let nx = if s < nl + 1 <= e { nl + 1 } else { e };
        lemma_first_bad_bound(b, nx, e);
    }
}

/// Cutting a stretch of lines at a line feed splits its records in two.
pub proof fn lemma_records_split(b: Seq<u8>, s: int, m: int, n: int)
    requires
        0 <= s <= m < n <= b.len(),
        b[m] == NEWLINE,
    ensures
        records(b, s, n) == records(b, s, m) + records(b, m + 1, n),
        first_bad(b, s, n) == (if first_bad(b, s, m) < m { first_bad(b, s, m) } else { first_bad(b, m + 1, n) }),
    decreases m - s,
{
    if s == m {
        assert(records(b, s, m) + records(b, m + 1, n) =~= records(b, m + 1, n));
    } else {
        lemma_find_from_split(b, NEWLINE, s, m, n);
        lemma_find_from_bounds(b, NEWLINE, s, m);
        let nl = line_end(b, s, n);
        assert(nl == line_end(b, s, m));
        if nl < m {
            lemma_records_split(b, nl + 1, m, n);
            if nl == s {
                assert(records(b, s, n) == records(b, nl + 1, n));
            } else {
                let r = line_record(b, s, nl);
                assert(records(b, s, n) == seq![r] + records(b, nl + 1, n));
                assert(records(b, s, m) == seq![r] + records(b, nl + 1, m));
                assert(seq![r] + (records(b, nl + 1, m) + records(b, m + 1, n)) =~= (seq![r] + records(b, nl + 1, m)) + records(b, m + 1, n));
            }
        } else {
            assert(nl == m);
            assert(records(b, m, m) == Seq::<(Seq<u8>, int)>::empty());
            assert(first_bad(b, m, m) == m);
            let r = line_record(b, s, nl);
            assert(records(b, s, m) == seq![r] + records(b, m, m));
            assert(records(b, s, m) =~= seq![r]);
        }
    }
}

/// Cutting a well-formed stretch of lines at a line feed: the aggregates of the
/// two parts, merged, are the aggregate of the whole, and both parts are well
/// formed. (A well-formed line holds a value of at most `MAX_MAGNITUDE` tenths.)
pub proof fn lemma_scan_halves(b: Seq<u8>, s: int, m: int, e: int)
    requires
        0 <= s <= m < e <= b.len(),
        b[m] == NEWLINE,
        first_bad(b, s, e) == e,
    ensures
        first_bad(b, s, m) == m,
        first_bad(b, m + 1, e) == e,
        merge_maps(aggregate(records(b, s, m)), aggregate(records(b, m + 1, e))) == aggregate(records(b, s, e)),
{
    lemma_records_split(b, s, m, e);
    lemma_first_bad_bound(b, s, m);
    lemma_records_in_range(b, m + 1, e);
    lemma_aggregate_split(records(b, s, m), records(b, m + 1, e));
}

/// The records of each range in turn.
pub open spec fn records_of_ranges(b: Seq<u8>, r: Seq<(int, int)>) -> Seq<(Seq<u8>, int)>
    decreases r.len(),
{
    if r.len() == 0 {
        seq![]
    } else {
        records_of_ranges(b, r.drop_last()) + records(b, r.last().0, r.last().1)
    }
}

/// Every range holds only well-formed lines.
pub open spec fn ranges_ok(b: Seq<u8>, r: Seq<(int, int)>) -> bool {
    forall|i: int| 0 <= i < r.len() ==> first_bad(b, (#[trigger] r[i]).0, r[i].1) == r[i].1
}

proof fn lemma_records_of_ranges_cons(b: Seq<u8>, x: (int, int), r: Seq<(int, int)>)
    ensures
        records_of_ranges(b, seq![x] + r) == records(b, x.0, x.1) + records_of_ranges(b, r),
    decreases r.len(),
{
    if r.len() == 0 {
        assert((seq![x] + r).drop_last() =~= Seq::<(int, int)>::empty());
        assert((seq![x] + r).last() == x);
        assert(records_of_ranges(b, seq![x] + r) == records_of_ranges(b, Seq::<(int, int)>::empty()) + records(b, x.0, x.1));
        assert(records_of_ranges(b, r) == Seq::<(Seq<u8>, int)>::empty());
        assert(records_of_ranges(b, seq![x] + r) =~= records(b, x.0, x.1) + records_of_ranges(b, r));
    } else {
        assert((seq![x] + r).drop_last() =~= seq![x] + r.drop_last());
        lemma_records_of_ranges_cons(b, x, r.drop_last());
        assert((seq![x] + r).last() == r.last());
        let a = records(b, x.0, x.1);
        let m = records_of_ranges(b, r.drop_last());
        let z = records(b, r.last().0, r.last().1);
        assert(records_of_ranges(b, seq![x] + r) == (a + m) + z);
        assert(records_of_ranges(b, r) == m + z);
        assert((a + m) + z =~= a + (m + z));
    }
}

proof fn lemma_ranges_records(b: Seq<u8>, n: int, c: int, s: int, k: nat)
    requires
        k >= 1,
        0 <= s <= n <= b.len(),
        c >= 0,
    ensures
        records_of_ranges(b, ranges_from(b, n, c, s, k)) == records(b, s, n),
        ranges_ok(b, ranges_from(b, n, c, s, k)) <==> first_bad(b, s, n) == n,
        forall|i: int| 0 <= i < k && first_bad_in(b, ranges_from(b, n, c, s, k), i) ==>
            first_bad(b, s, n) == first_bad(b, (#[trigger] ranges_from(b, n, c, s, k)[i]).0, ranges_from(b, n, c, s, k)[i].1),
    decreases k,
{
    let r = ranges_from(b, n, c, s, k);
    if k == 1 {
        lemma_records_of_ranges_cons(b, (s, n), Seq::<(int, int)>::empty());
        assert(r =~= seq![(s, n)] + Seq::<(int, int)>::empty());
        assert(records(b, s, n) + Seq::<(Seq<u8>, int)>::empty() =~= records(b, s, n));
        assert(r[0] == (s, n));
    } else {
        let e = find_from(b, NEWLINE, min_int(s + c, n), n);
        lemma_find_from_bounds(b, NEWLINE, min_int(s + c, n), n);
        let nx = after(e, n);
        let rest = ranges_from(b, n, c, nx, (k - 1) as nat);
        lemma_ranges_records(b, n, c, nx, (k - 1) as nat);
        lemma_ranges_tile(b, n, c, nx, (k - 1) as nat);
        assert(r == seq![(s, e)] + rest);
        lemma_records_of_ranges_cons(b, (s, e), rest);
        lemma_first_bad_bound(b, s, e);
        if e < n {
            lemma_records_split(b, s, e, n);
        } else {
            assert(records(b, n, n) == Seq::<(Seq<u8>, int)>::empty());
            assert(records(b, s, n) + records(b, n, n) =~= records(b, s, n));
            assert(first_bad(b, n, n) == n);
        }
        if ranges_ok(b, r) {
            assert(r[0] == (s, e));
            assert forall|i: int| 0 <= i < rest.len() implies first_bad(b, (#[trigger] rest[i]).0, rest[i].1) == rest[i].1 by {
                assert(r[i + 1] == rest[i]);
            }
        }
        if first_bad(b, s, n) == n {
            assert forall|i: int| 0 <= i < r.len() implies first_bad(b, (#[trigger] r[i]).0, r[i].1) == r[i].1 by {
                if i > 0 {
                    assert(r[i] == rest[i - 1]);
                }
            }
        }
        assert forall|i: int| 0 <= i < k && first_bad_in(b, r, i) implies
            first_bad(b, s, n) == first_bad(b, (#[trigger] r[i]).0, r[i].1) by {
            assert(r[0] == (s, e));
            if i > 0 {
                assert(r[i] == rest[i - 1]);
                assert(first_bad(b, r[0].0, r[0].1) == r[0].1);
                assert forall|j: int| 0 <= j < i - 1 implies first_bad(b, (#[trigger] rest[j]).0, rest[j].1) == rest[j].1 by {
                    assert(r[j + 1] == rest[j]);
                    assert(first_bad(b, r[j + 1].0, r[j + 1].1) == r[j + 1].1);
                }
                assert(first_bad_in(b, rest, i - 1));
                if e == n {
                    lemma_ranges_tile_end(b, n, c, n, (k - 1) as nat, i - 1);
                }
            }
        }
    }
}

/// Range `i` holds a malformed line and every range before it is well formed.
pub open spec fn first_bad_in(b: Seq<u8>, r: Seq<(int, int)>, i: int) -> bool {
    &&& first_bad(b, r[i].0, r[i].1) < r[i].1
    &&& forall|j: int| 0 <= j < i ==> first_bad(b, (#[trigger] r[j]).0, r[j].1) == r[j].1
}

proof fn lemma_ranges_tile_end(b: Seq<u8>, n: int, c: int, s: int, k: nat, i: int)
    requires
        s == n,
        0 <= n <= b.len(),
        0 <= i < k,
        c >= 0,
    ensures
        ranges_from(b, n, c, s, k)[i] == (n, n),
    decreases k,
{
    if k > 1 {
        let e = find_from(b, NEWLINE, min_int(s + c, n), n);
        lemma_find_from_bounds(b, NEWLINE, min_int(s + c, n), n);
        lemma_ranges_tile(b, n, c, n, (k - 1) as nat);
        if i > 0 {
            lemma_ranges_tile_end(b, n, c, n, (k - 1) as nat, i - 1);
        }
    }
}

/// Left fold of `merge_maps` over a sequence of tables' contents.
pub open spec fn merge_all(ms: Seq<Map<Seq<u8>, Agg>>) -> Map<Seq<u8>, Agg>
    decreases ms.len(),
{
    if ms.len() == 0 {
        Map::empty()
    } else {
        merge_maps(merge_all(ms.drop_last()), ms.last())
    }
}

/// The aggregate of the records of each range, in order.
pub open spec fn range_aggregates(b: Seq<u8>, r: Seq<(int, int)>) -> Seq<Map<Seq<u8>, Agg>> {
    r.map_values(|x: (int, int)| aggregate(records(b, x.0, x.1)))
}

/// Every value of the records of a well-formed stretch of lines is in range.
pub proof fn lemma_records_in_range(b: Seq<u8>, s: int, e: int)
    requires
        first_bad(b, s, e) == e,
    ensures
        forall|i: int| 0 <= i < records(b, s, e).len() ==> value_in_range(#[trigger] records(b, s, e)[i].1),
    decreases e - s,
{
    if s < e {
        let nl = line_end(b, s, e);
        let nx = if s < nl + 1 <= e { nl + 1 } else { e };
        lemma_find_from_bounds(b, NEWLINE, s, e);
        lemma_records_in_range(b, nx, e);
        if nl != s {
            let k = crate::scan::key_end(b, s, nl);
            let rs = records(b, s, e);
            assert(rs == seq![line_record(b, s, nl)] + records(b, nx, e));
            assert(line_ok(b, s, nl));
            assert(digits_value(b.subrange(k + 1, nl)) <= MAX_MAGNITUDE);
            assert(value_in_range(field_value(b.subrange(k + 1, nl))));
            assert forall|i: int| 0 <= i < rs.len() implies value_in_range(#[trigger] rs[i].1) by {
                if i > 0 {
                    assert(rs[i] == records(b, nx, e)[i - 1]);
                }
            }
        }
    }
}

proof fn lemma_fold_ranges(b: Seq<u8>, r: Seq<(int, int)>)
    requires
        ranges_ok(b, r),
    ensures
        aggregate(records_of_ranges(b, r)) == merge_all(range_aggregates(b, r)),
    decreases r.len(),
{
    if r.len() == 0 {
        assert(records_of_ranges(b, r) =~= Seq::<(Seq<u8>, int)>::empty());
    } else {
        let r0 = r.drop_last();
        assert(ranges_ok(b, r0)) by {
            assert forall|i: int| 0 <= i < r0.len() implies first_bad(b, (#[trigger] r0[i]).0, r0[i].1) == r0[i].1 by {
                assert(r0[i] == r[i]);
            }
        }
        lemma_fold_ranges(b, r0);
        assert(range_aggregates(b, r).drop_last() =~= range_aggregates(b, r0));
        let x = r.last();
        assert(r[r.len() - 1] == x);
        lemma_records_in_range(b, x.0, x.1);
        lemma_aggregate_split(records_of_ranges(b, r0), records(b, x.0, x.1));
    }
}

/// However the buffer is split among `t` workers, aggregating each range and
/// merging the results in order gives the aggregate of all records of the
/// buffer, and every range is well formed exactly when the whole buffer is.
pub proof fn lemma_partition_aggregate(b: Seq<u8>, t: nat)
    requires
        t >= 1,
    ensures
        ranges_ok(b, partition_spec(b, t)) <==> first_bad(b, 0, span_end(b)) == span_end(b),
        ranges_ok(b, partition_spec(b, t)) ==>
            merge_all(range_aggregates(b, partition_spec(b, t))) == aggregate(records(b, 0, span_end(b))),
{
    let n = span_end(b);
    assert(n / (t as int) >= 0) by (nonlinear_arith)
        requires n >= 0, t >= 1;
    lemma_ranges_records(b, n, n / (t as int), 0, t);
    if ranges_ok(b, partition_spec(b, t)) {
        lemma_fold_ranges(b, partition_spec(b, t));
    }
}


pub open spec fn table_views(ts: Seq<FnvTable>, b: Seq<u8>) -> Seq<Map<Seq<u8>, Agg>> {
    ts.map_values(|t: FnvTable| t.view_in(b))
}

/// Folds partial tables, in order, into one. Fails when a merged count or sum
/// would not fit.
pub fn reduce_tables(tables: Vec<FnvTable>, b: &[u8]) -> (r: Result<FnvTable, MergeOverflow>)
    requires
        forall|i: int| 0 <= i < tables@.len() ==> (#[trigger] tables@[i]).wf(b@),
    ensures
        r matches Ok(t) ==> t.wf(b@) && t.view_in(b@) == merge_all(table_views(tables@, b@)),
        r is Err ==> exists|i: int| 0 <= i < tables@.len()
            && !mergeable(merge_all(table_views(tables@, b@).take(i)), #[trigger] tables@[i].view_in(b@)),
{
    let ghost views = table_views(tables@, b@);
    let n = tables.len();
    let mut rest = tables;
    let mut acc = FnvTable::new();
    let mut i: usize = 0;
    while i < n
        invariant
            views == table_views(tables@, b@),
            n == tables@.len(),
            i <= n,
            rest@ == tables@.subrange(i as int, n as int),
            acc.wf(b@),
            acc.view_in(b@) == merge_all(views.take(i as int)),
            forall|j: int| 0 <= j < tables@.len() ==> (#[trigger] tables@[j]).wf(b@),
        decreases n - i,
    {
        let t = rest.remove(0);
        proof {
            assert(t == tables@[i as int]);
            assert(views.take(i + 1).drop_last() =~= views.take(i as int));
            assert(views.take(i + 1).last() == t.view_in(b@));
        }
        match merge(acc, t, b) {
            Ok(m) => {
                acc = m;
            },
            Err(e) => {
                return Err(e);
            },
        }
        proof {
            assert(rest@ =~= tables@.subrange(i + 1, n as int));
        }
        i = i + 1;
    }
    proof {
        assert(views.take(n as int) =~= views);
    }
    Ok(acc)
}

/// A stretch of lines holds at most one record per byte.
proof fn lemma_records_len(b: Seq<u8>, s: int, e: int)
    requires
        s <= e,
    ensures
        records(b, s, e).len() <= e - s,
    decreases e - s,
{
    if s < e {
        let nl = line_end(b, s, e);
        let nx = if s < nl + 1 <= e { nl + 1 } else { e };
        lemma_records_len(b, nx, e);
    }
}

/// The records of the first `i` ranges are at most those of all of them.
proof fn lemma_records_of_prefix(b: Seq<u8>, r: Seq<(int, int)>, i: int)
    requires
        0 <= i <= r.len(),
    ensures
        records_of_ranges(b, r.take(i)).len() <= records_of_ranges(b, r).len(),
    decreases r.len() - i,
{
    if i == r.len() {
        assert(r.take(i) =~= r);
    } else {
        lemma_records_of_prefix(b, r, i + 1);
        assert(r.take(i + 1).drop_last() =~= r.take(i));
    }
}

proof fn lemma_fold_step(b: Seq<u8>, rs: Seq<(int, int)>, i: int, a: Map<Seq<u8>, Agg>, t: Map<Seq<u8>, Agg>)
    requires
        0 <= i < rs.len(),
        records_of_ranges(b, rs).len() <= u64::MAX,
        a == aggregate(records_of_ranges(b, rs.take(i))),
        within(a, records_of_ranges(b, rs.take(i)).len() as int),
        first_bad(b, rs[i].0, rs[i].1) == rs[i].1,
        t == aggregate(records(b, rs[i].0, rs[i].1)),
        within(t, records(b, rs[i].0, rs[i].1).len() as int),
    ensures
        mergeable(a, t),
        merge_maps(a, t) == aggregate(records_of_ranges(b, rs.take(i + 1))),
        within(merge_maps(a, t), records_of_ranges(b, rs.take(i + 1)).len() as int),
{
    let pre = records_of_ranges(b, rs.take(i));
    let cur = records(b, rs[i].0, rs[i].1);
    assert(rs.take(i + 1).drop_last() =~= rs.take(i));
    assert(rs.take(i + 1).last() == rs[i]);
    assert(records_of_ranges(b, rs.take(i + 1)) == pre + cur);
    lemma_records_of_prefix(b, rs, i + 1);
    lemma_within_merge(a, pre.len() as int, t, cur.len() as int);
    lemma_records_in_range(b, rs[i].0, rs[i].1);
    lemma_aggregate_split(pre, cur);
}

/// Splits the buffer into `threads` ranges, aggregates each, and folds the
/// partial tables into one: the aggregate of every record of the buffer. The
/// error gives the start of the first malformed line of the buffer.
#[verifier::rlimit(60)]
pub fn aggregate_buffer(b: &[u8], threads: usize) -> (r: Result<FnvTable, ParseError>)
    requires
        threads >= 1,
    ensures
        first_bad(b@, 0, span_end(b@)) == span_end(b@) <==> r is Ok,
        r matches Ok(t) ==> t.wf(b@) && t.view_in(b@) == aggregate(records(b@, 0, span_end(b@))),
        r matches Err(e) ==> e.line == first_bad(b@, 0, span_end(b@)),
{
    let ranges = partition(b, threads);
    let ghost rs = partition_spec(b@, threads as nat);
    let ghost n = span_end(b@);
    proof {
        lemma_partition_coverage(b@, threads as nat);
        assert(n / (threads as int) >= 0) by (nonlinear_arith)
            requires n >= 0, threads >= 1;
        lemma_ranges_records(b@, n, n / (threads as int), 0, threads as nat);
        lemma_records_len(b@, 0, n);
        assert(range_ints(ranges@).len() == ranges@.len());
        assert(rs.take(0) =~= Seq::<(int, int)>::empty());
        assert(records_of_ranges(b@, rs.take(0)) == Seq::<(Seq<u8>, int)>::empty());
    }
    let mut acc = FnvTable::new();
    assert(acc.view_in(b@) == aggregate(Seq::<(Seq<u8>, int)>::empty()));
    assert(within(acc.view_in(b@), 0));
    let mut i: usize = 0;
    while i < ranges.len()
        invariant
            rs == partition_spec(b@, threads as nat),
            n == span_end(b@),
            range_ints(ranges@) == rs,
            rs.len() == ranges@.len(),
            tiles(b@, rs, 0, n),
            ranges_ok(b@, rs) <==> first_bad(b@, 0, n) == n,
            forall|j: int| 0 <= j < rs.len() && first_bad_in(b@, rs, j) ==>
                first_bad(b@, 0, n) == first_bad(b@, (#[trigger] rs[j]).0, rs[j].1),
            records_of_ranges(b@, rs) == records(b@, 0, n),
            records(b@, 0, n).len() <= n <= b@.len(),
            i <= ranges@.len(),
            forall|j: int| 0 <= j < i ==> first_bad(b@, (#[trigger] rs[j]).0, rs[j].1) == rs[j].1,
            acc.wf(b@),
            acc.view_in(b@) == aggregate(records_of_ranges(b@, rs.take(i as int))),
            within(acc.view_in(b@), records_of_ranges(b@, rs.take(i as int)).len() as int),
        decreases ranges@.len() - i,
    {
        let (s, e) = ranges[i];
        proof {
            assert(rs[i as int] == (s as int, e as int));
            assert(0 <= rs[i as int].0 <= rs[i as int].1 <= n);
        }
        let t = match mapper(s, e, b) {
            Ok(t) => t,
            Err(pe) => {
                proof {
                    assert(!ranges_ok(b@, rs));
                    lemma_first_bad_bound(b@, 0, n);
                    assert(first_bad_in(b@, rs, i as int));
                }
                return Err(pe);
            },
        };
        proof {
            lemma_fold_step(b@, rs, i as int, acc.view_in(b@), t.view_in(b@));
        }
        acc = match merge(acc, t, b) {
            Ok(m) => m,
            Err(_) => {
                proof {
                    assert(false);
                }
                return Err(ParseError { line: 0 });
            },
        };
        i = i + 1;
    }
    proof {
        assert(rs.take(rs.len() as int) =~= rs);
        assert(ranges_ok(b@, rs));
    }
    Ok(acc)
}

/// The report of a buffer: one `key;min;mean;max` line per key of its records,
/// keys in ascending byte order, whatever the number of workers. The error
/// gives the start of the first malformed line of the buffer.
pub fn summarize(b: &[u8], threads: usize) -> (r: Result<Vec<Vec<u8>>, ParseError>)
    requires
        threads >= 1,
    ensures
        first_bad(b@, 0, span_end(b@)) == span_end(b@) <==> r is Ok,
        r matches Ok(rows) ==> exists|ks: Seq<Seq<u8>>|
            #[trigger] sorted_keys_of(ks, aggregate(records(b@, 0, span_end(b@))))
            && rows@.len() == ks.len()
            && forall|i: int| 0 <= i < ks.len() ==>
                (#[trigger] rows@[i])@ == row_text(ks[i], aggregate(records(b@, 0, span_end(b@)))[ks[i]]),
        r matches Err(e) ==> e.line == first_bad(b@, 0, span_end(b@)),
{
    match aggregate_buffer(b, threads) {
        Ok(t) => Ok(report(&t, b)),
        Err(e) => Err(e),
    }
}

proof fn lemma_within_merge(a: Map<Seq<u8>, Agg>, x: int, c: Map<Seq<u8>, Agg>, y: int)
    requires
        within(a, x),
        within(c, y),
        0 <= x,
        0 <= y,
        x + y <= u64::MAX,
    ensures
        mergeable(a, c),
        within(merge_maps(a, c), x + y),
{
    assert forall|k: Seq<u8>| a.contains_key(k) && c.contains_key(k) implies #[trigger] merge_fits(a, k, c[k]) by {
        assert(a[k].count <= x && c[k].count <= y);
    }
    let m = merge_maps(a, c);
    assert forall|k: Seq<u8>| #[trigger] m.contains_key(k) implies m[k].count <= x + y && -((x + y)
        * MAX_MAGNITUDE) <= m[k].sum <= (x + y) * MAX_MAGNITUDE by {
        if a.contains_key(k) {
            assert(a[k].count <= x);
        }
        if c.contains_key(k) {
            assert(c[k].count <= y);
        }
    }
}

/// Splitting `[s, n)` at a position `m` that is `n` or a line feed, and going on
/// just after it.
proof fn lemma_cut(b: Seq<u8>, s: int, m: int, n: int)
    requires
        0 <= s <= m <= n <= b.len(),
        m < n ==> b[m] == NEWLINE,
    ensures
        records(b, s, n) == records(b, s, m) + records(b, after(m, n), n),
        first_bad(b, s, n) == n <==> (first_bad(b, s, m) == m && first_bad(b, after(m, n), n) == n),
{
    lemma_first_bad_bound(b, s, m);
    lemma_first_bad_bound(b, after(m, n), n);
    if m < n {
        lemma_records_split(b, s, m, n);
    } else {
        assert(records(b, n, n) == Seq::<(Seq<u8>, int)>::empty());
        assert(records(b, s, m) + records(b, n, n) =~= records(b, s, m));
        assert(first_bad(b, n, n) == n);
    }
}

/// Like `mapper`, but the range is cut into three line-aligned parts that are
/// read a line at a time in turn, each into a table of its own, and the three
/// tables are merged at the end. The result is the same as `mapper`'s.
pub fn mapper_interleaved(start: usize, end: usize, mmap_bytes: &[u8]) -> (r: Result<FnvTable, ParseError>)
    requires
        start <= end <= mmap_bytes@.len(),
    ensures
        match r {
            Ok(t) => first_bad(mmap_bytes@, start as int, end as int) == end
                && t.wf(mmap_bytes@)
                && t.view_in(mmap_bytes@) == aggregate(records(mmap_bytes@, start as int, end as int)),
            Err(e) => first_bad(mmap_bytes@, start as int, end as int) < end
                && start <= e.line < end
                && first_bad(mmap_bytes@, e.line as int, end as int) == e.line,
        },
{
    let b = mmap_bytes;
    let span = vstd::slice::slice_subrange(b, 0, end);
    let thirds = (end - start) / 3;
    let (s1, e1) = chunker(start, thirds, NEWLINE, span);
    let s2: usize = if e1 < end { e1 + 1 } else { end };
    let (_, e2) = chunker(s2, thirds, NEWLINE, span);
    let s3: usize = if e2 < end { e2 + 1 } else { end };
    let e3 = end;
    proof {
        lemma_find_from_prefix(b@, span@, NEWLINE, min_int(start + thirds, end as int), end as int);
        lemma_find_from_bounds(span@, NEWLINE, min_int(start + thirds, end as int), end as int);
        lemma_find_from_prefix(b@, span@, NEWLINE, min_int(s2 + thirds, end as int), end as int);
        lemma_find_from_bounds(span@, NEWLINE, min_int(s2 + thirds, end as int), end as int);
        lemma_cut(b@, start as int, e1 as int, end as int);
        lemma_cut(b@, s2 as int, e2 as int, end as int);
        lemma_first_bad_bound(b@, s3 as int, end as int);
        lemma_first_bad_bound(b@, s1 as int, e1 as int);
        lemma_first_bad_bound(b@, s2 as int, e2 as int);
        lemma_first_bad_bound(b@, start as int, end as int);
    }
    let mut t1 = FnvTable::new();
    let mut t2 = FnvTable::new();
    let mut t3 = FnvTable::new();
    let mut pos1 = s1;
    let mut pos2 = s2;
    let mut pos3 = s3;
    let ghost mut d1: Seq<(Seq<u8>, int)> = seq![];
    let ghost mut d2: Seq<(Seq<u8>, int)> = seq![];
    let ghost mut d3: Seq<(Seq<u8>, int)> = seq![];
    assert(within(t1.view_in(b@), 0));
    while pos1 < e1 || pos2 < e2 || pos3 < e3
        invariant
            b@ == mmap_bytes@,
            start == s1 <= pos1 <= e1 <= s2 <= pos2 <= e2 <= s3 <= pos3 <= e3 == end <= b@.len(),
            t1.wf(b@),
            t2.wf(b@),
            t3.wf(b@),
            t1.view_in(b@) == aggregate(d1),
            t2.view_in(b@) == aggregate(d2),
            t3.view_in(b@) == aggregate(d3),
            records(b@, s1 as int, e1 as int) == d1 + records(b@, pos1 as int, e1 as int),
            records(b@, s2 as int, e2 as int) == d2 + records(b@, pos2 as int, e2 as int),
            records(b@, s3 as int, e3 as int) == d3 + records(b@, pos3 as int, e3 as int),
            first_bad(b@, s1 as int, e1 as int) == first_bad(b@, pos1 as int, e1 as int),
            first_bad(b@, s2 as int, e2 as int) == first_bad(b@, pos2 as int, e2 as int),
            first_bad(b@, s3 as int, e3 as int) == first_bad(b@, pos3 as int, e3 as int),
            d1.len() <= pos1 - s1,
            d2.len() <= pos2 - s2,
            d3.len() <= pos3 - s3,
            within(t1.view_in(b@), d1.len() as int),
            within(t2.view_in(b@), d2.len() as int),
            within(t3.view_in(b@), d3.len() as int),
            records(b@, start as int, end as int) == records(b@, s1 as int, e1 as int)
                + (records(b@, s2 as int, e2 as int) + records(b@, s3 as int, e3 as int)),
            first_bad(b@, start as int, end as int) == end <==> (first_bad(b@, s1 as int, e1 as int) == e1
                && first_bad(b@, s2 as int, e2 as int) == e2 && first_bad(b@, s3 as int, e3 as int) == e3),
            first_bad(b@, s1 as int, e1 as int) <= e1,
            first_bad(b@, s2 as int, e2 as int) <= e2,
            first_bad(b@, s3 as int, e3 as int) <= e3,
            first_bad(b@, start as int, end as int) <= end,
            e1 < end ==> b@[e1 as int] == NEWLINE,
            e2 < end ==> b@[e2 as int] == NEWLINE,
        decreases (e1 - pos1) + (e2 - pos2) + (e3 - pos3),
    {
        if pos1 < e1 {
            match scan_step(&mut t1, b, pos1, e1, Ghost(d1.len() as int)) {
                Ok(nx) => {
                    proof {
                        assert(aggregate(d1 + step_records(b@, pos1 as int, e1 as int)) == t1.view_in(b@));
                        assert(records(b@, s1 as int, e1 as int) =~= (d1 + step_records(b@, pos1 as int, e1 as int))
                            + records(b@, nx as int, e1 as int));
                        d1 = d1 + step_records(b@, pos1 as int, e1 as int);
                    }
                    pos1 = nx;
                },
                Err(e) => {
                    proof {
                        if e1 < end {
                            lemma_records_split(b@, pos1 as int, e1 as int, end as int);
                        }
                    }
                    return Err(e);
                },
            }
        }
        if pos2 < e2 {
            match scan_step(&mut t2, b, pos2, e2, Ghost(d2.len() as int)) {
                Ok(nx) => {
                    proof {
                        assert(aggregate(d2 + step_records(b@, pos2 as int, e2 as int)) == t2.view_in(b@));
                        assert(records(b@, s2 as int, e2 as int) =~= (d2 + step_records(b@, pos2 as int, e2 as int))
                            + records(b@, nx as int, e2 as int));
                        d2 = d2 + step_records(b@, pos2 as int, e2 as int);
                    }
                    pos2 = nx;
                },
                Err(e) => {
                    proof {
                        if e2 < end {
                            lemma_records_split(b@, pos2 as int, e2 as int, end as int);
                        }
                    }
                    return Err(e);
                },
            }
        }
        if pos3 < e3 {
            match scan_step(&mut t3, b, pos3, e3, Ghost(d3.len() as int)) {
                Ok(nx) => {
                    proof {
                        assert(aggregate(d3 + step_records(b@, pos3 as int, e3 as int)) == t3.view_in(b@));
                        assert(records(b@, s3 as int, e3 as int) =~= (d3 + step_records(b@, pos3 as int, e3 as int))
                            + records(b@, nx as int, e3 as int));
                        d3 = d3 + step_records(b@, pos3 as int, e3 as int);
                    }
                    pos3 = nx;
                },
                Err(e) => {
                    proof {
                        assert(e3 == end);
                    }
                    return Err(e);
                },
            }
        }
    }
    let ghost r1 = records(b@, s1 as int, e1 as int);
    let ghost r2 = records(b@, s2 as int, e2 as int);
    let ghost r3 = records(b@, s3 as int, e3 as int);
    proof {
        assert(records(b@, e1 as int, e1 as int) == Seq::<(Seq<u8>, int)>::empty());
        assert(records(b@, e2 as int, e2 as int) == Seq::<(Seq<u8>, int)>::empty());
        assert(records(b@, e3 as int, e3 as int) == Seq::<(Seq<u8>, int)>::empty());
        assert(first_bad(b@, e1 as int, e1 as int) == e1);
        assert(first_bad(b@, e2 as int, e2 as int) == e2);
        assert(first_bad(b@, e3 as int, e3 as int) == e3);
        assert(r1 =~= d1);
        assert(r2 =~= d2);
        assert(r3 =~= d3);
        lemma_within_merge(t1.view_in(b@), d1.len() as int, t2.view_in(b@), d2.len() as int);
        lemma_within_merge(merge_maps(t1.view_in(b@), t2.view_in(b@)), (d1.len() + d2.len()) as int, t3.view_in(b@), d3.len() as int);
        lemma_records_in_range(b@, s2 as int, e2 as int);
        lemma_records_in_range(b@, s3 as int, e3 as int);
        lemma_aggregate_split(r1, r2);
        lemma_aggregate_split(r1 + r2, r3);
        assert(r1 + (r2 + r3) =~= (r1 + r2) + r3);
    }
    let t12 = match merge(t1, t2, b) {
        Ok(t) => t,
        Err(_) => {
            proof {
                assert(false);
            }
            return Err(ParseError { line: start });
        },
    };
    match merge(t12, t3, b) {
        Ok(t) => Ok(t),
        Err(_) => {
            proof {
                assert(false);
            }
            Err(ParseError { line: start })
        },
    }
}

} // verus!
