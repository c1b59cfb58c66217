use vstd::prelude::*;

use crate::entry::{agg_empty, agg_update, min_int, value_in_range, Agg, MAX_MAGNITUDE};
use crate::fixed::{digits_value, field_value, utf8_funky_int};
use crate::table::{merge_maps, FnvTable};

verus! {

/// ASCII line feed, the record delimiter.
pub const NEWLINE: u8 = 10;
/// ASCII `;`, the field delimiter.
pub const SEMICOLON: u8 = 59;

/// First position in `[i, end)` that holds `d`, or `end` if none does.
pub open spec fn find_from(b: Seq<u8>, d: u8, i: int, end: int) -> int
    decreases end - i,
{
    if i >= end {
        end
    } else if b[i] == d {
        i
    } else {
        find_from(b, d, i + 1, end)
    }
}

pub proof fn lemma_find_from_bounds(b: Seq<u8>, d: u8, i: int, end: int)
    requires
        i <= end,
    ensures
        i <= find_from(b, d, i, end) <= end,
        find_from(b, d, i, end) < end ==> b[find_from(b, d, i, end)] == d,
        forall|p: int| i <= p < find_from(b, d, i, end) ==> b[p] != d,
    decreases end - i,
{
    if i < end && b[i] != d {
        lemma_find_from_bounds(b, d, i + 1, end);
    }
}

/// Position of the first `d` in `b[i..end)`, or `end`.
pub fn find_byte(b: &[u8], d: u8, i: usize, end: usize) -> (r: usize)
    requires
        i <= end <= b@.len(),
    ensures
        r == find_from(b@, d, i as int, end as int),
{
    let mut p = i;
    while p < end
        invariant
            i <= p <= end <= b@.len(),
            find_from(b@, d, i as int, end as int) == find_from(b@, d, p as int, end as int),
        decreases end - p,
    {
        if b[p] == d {
            return p;
        }
        p = p + 1;
    }
    p
}

/// Where the line that starts at `pos` ends, within `[pos, end)`.
pub open spec fn line_end(b: Seq<u8>, pos: int, end: int) -> int {
    find_from(b, NEWLINE, pos, end)
}

/// Position of the first `;` of the line `[s, e)`, or `e`.
pub open spec fn key_end(b: Seq<u8>, s: int, e: int) -> int {
    find_from(b, SEMICOLON, s, e)
}

/// The line `[s, e)` is a record: a non-empty key, a `;`, and a non-empty value
/// whose digits fit.
pub open spec fn line_ok(b: Seq<u8>, s: int, e: int) -> bool {
    let k = key_end(b, s, e);
    &&& s < k
    &&& k + 1 < e
    &&& digits_value(b.subrange(k + 1, e)) <= MAX_MAGNITUDE
}

/// The key and scaled value of the record on the line `[s, e)`.
pub open spec fn line_record(b: Seq<u8>, s: int, e: int) -> (Seq<u8>, int) {
    let k = key_end(b, s, e);
    (b.subrange(s, k), field_value(b.subrange(k + 1, e)))
}

/// The records of the non-empty lines of `b[pos..end)`, in order.
pub open spec fn records(b: Seq<u8>, pos: int, end: int) -> Seq<(Seq<u8>, int)>
    decreases end - pos,
{
    if pos >= end {
        seq![]
    } else {
        let nl = line_end(b, pos, end);
        let nx = if pos < nl + 1 <= end { nl + 1 } else { end };
        if nl == pos {
            records(b, nx, end)
        } else {
            seq![line_record(b, pos, nl)] + records(b, nx, end)
        }
    }
}

/// Start of the first non-empty line of `b[pos..end)` that is not a record, or
/// `end` if every one is.
pub open spec fn first_bad(b: Seq<u8>, pos: int, end: int) -> int
    decreases end - pos,
{
    if pos >= end {
        end
    } else {
        let nl = line_end(b, pos, end);
        let nx = if pos < nl + 1 <= end { nl + 1 } else { end };
        if nl != pos && !line_ok(b, pos, nl) {
            pos
        } else {
            first_bad(b, nx, end)
        }
    }
}

/// Aggregates of a sequence of records, by key, observed in order.
pub open spec fn aggregate(rs: Seq<(Seq<u8>, int)>) -> Map<Seq<u8>, Agg>
    decreases rs.len(),
{
    if rs.len() == 0 {
        Map::empty()
    } else {
        let m = aggregate(rs.drop_last());
        let (k, v) = rs.last();
        m.insert(k, agg_update(if m.contains_key(k) { m[k] } else { agg_empty() }, v))
    }
}

/// A malformed record: the position where its line starts.
#[derive(Clone, Copy, Debug, PartialEq, Eq, Structural)]
pub struct ParseError {
    pub line: usize,
}

/// The records that the line at `pos` contributes: none for an empty line.
pub open spec fn step_records(b: Seq<u8>, pos: int, end: int) -> Seq<(Seq<u8>, int)> {
    if line_end(b, pos, end) == pos { seq![] } else { seq![line_record(b, pos, line_end(b, pos, end))] }
}

/// Every aggregate of `m` stays within `d` observations and `d` extreme values.
pub open spec fn within(m: Map<Seq<u8>, Agg>, d: int) -> bool {
    forall|k: Seq<u8>| #[trigger] m.contains_key(k) ==> m[k].count <= d && -(d * MAX_MAGNITUDE) <= m[k].sum
        <= d * MAX_MAGNITUDE
}

/// Reads the line of `b[pos..end)` that starts at `pos` into `table`; returns
/// where the next line starts.
pub fn scan_step(table: &mut FnvTable, b: &[u8], pos: usize, end: usize, d: Ghost<int>) -> (r: Result<usize, ParseError>)
    requires
        old(table).wf(b@),
        pos < end <= b@.len(),
        0 <= d@ < usize::MAX,
        within(old(table).view_in(b@), d@),
    ensures
        match r {
            Ok(nx) => {
                &&& pos < nx <= end
                &&& final(table).wf(b@)
                &&& first_bad(b@, pos as int, end as int) == first_bad(b@, nx as int, end as int)
                &&& records(b@, pos as int, end as int) == step_records(b@, pos as int, end as int)
                    + records(b@, nx as int, end as int)
                &&& forall|done: Seq<(Seq<u8>, int)>| old(table).view_in(b@) == aggregate(done) ==>
                    #[trigger] aggregate(done + step_records(b@, pos as int, end as int)) == final(table).view_in(b@)
                &&& within(final(table).view_in(b@), d@ + step_records(b@, pos as int, end as int).len())
            },
            Err(e) => first_bad(b@, pos as int, end as int) == pos && e.line == pos,
        },
{
    let nl = find_byte(b, NEWLINE, pos, end);
    proof {
        lemma_find_from_bounds(b@, NEWLINE, pos as int, end as int);
    }
    let nx: usize = if nl < end { nl + 1 } else { end };
    if nl == pos {
        proof {
            assert forall|done: Seq<(Seq<u8>, int)>| table.view_in(b@) == aggregate(done) implies
                #[trigger] aggregate(done + step_records(b@, pos as int, end as int)) == table.view_in(b@) by {
                assert(done + step_records(b@, pos as int, end as int) =~= done);
            }
        }
        return Ok(nx);
    }
    let k = find_byte(b, SEMICOLON, pos, nl);
    proof {
        lemma_find_from_bounds(b@, SEMICOLON, pos as int, nl as int);
    }
    if k == pos || k >= nl {
        proof {
            assert(!line_ok(b@, pos as int, nl as int));
        }
        return Err(ParseError { line: pos });
    }
    let v = match utf8_funky_int(vstd::slice::slice_subrange(b, k + 1, nl)) {
        Ok(v) => v,
        Err(_) => {
            proof {
                assert(!line_ok(b@, pos as int, nl as int));
            }
            return Err(ParseError { line: pos });
        },
    };
    let ghost key = b@.subrange(pos as int, k as int);
    let ghost m = table.view_in(b@);
    proof {
        assert(line_record(b@, pos as int, nl as int) == (key, v as int));
        if m.contains_key(key) {
            assert(m[key].count <= d@);
        }
    }
    table.update_key(b, pos, k, v);
    proof {
        let rec = (key, v as int);
        assert(step_records(b@, pos as int, end as int) == seq![rec]);
        assert forall|done: Seq<(Seq<u8>, int)>| m == aggregate(done) implies
            #[trigger] aggregate(done + step_records(b@, pos as int, end as int)) == table.view_in(b@) by {
            assert((done + seq![rec]).drop_last() =~= done);
            assert((done + seq![rec]).last() == rec);
        }
    }
    Ok(nx)
}

/// Aggregates the records of the lines of `mmap_bytes[start..end)` into a new
/// table, or reports the first malformed line. Empty lines are skipped.
pub fn mapper(start: usize, end: usize, mmap_bytes: &[u8]) -> (r: Result<FnvTable, ParseError>)
    requires
        start <= end <= mmap_bytes@.len(),
    ensures
        match r {
            Ok(t) => first_bad(mmap_bytes@, start as int, end as int) == end
                && t.wf(mmap_bytes@)
                && t.view_in(mmap_bytes@) == aggregate(records(mmap_bytes@, start as int, end as int))
                && within(t.view_in(mmap_bytes@), records(mmap_bytes@, start as int, end as int).len() as int),
            Err(e) => first_bad(mmap_bytes@, start as int, end as int) < end
                && e.line == first_bad(mmap_bytes@, start as int, end as int),
        },
{
    let b = mmap_bytes;
    let mut table = FnvTable::new();
    let mut pos = start;
    let ghost mut done: Seq<(Seq<u8>, int)> = seq![];
    assert(within(table.view_in(b@), 0));
    while pos < end
        invariant
            b@ == mmap_bytes@,
            start <= pos <= end <= b@.len(),
            table.wf(b@),
            table.view_in(b@) == aggregate(done),
            records(b@, start as int, end as int) == done + records(b@, pos as int, end as int),
            first_bad(b@, start as int, end as int) == first_bad(b@, pos as int, end as int),
            done.len() <= pos - start,
            within(table.view_in(b@), done.len() as int),
        decreases end - pos,
    {
        match scan_step(&mut table, b, pos, end, Ghost(done.len() as int)) {
            Ok(nx) => {
                proof {
                    assert(aggregate(done + step_records(b@, pos as int, end as int)) == table.view_in(b@));
                    assert(records(b@, start as int, end as int) =~= (done + step_records(b@, pos as int, end as int))
                        + records(b@, nx as int, end as int));
                    done = done + step_records(b@, pos as int, end as int);
                }
                pos = nx;
            },
            Err(e) => {
                return Err(e);
            },
        }
    }
    proof {
        assert(records(b@, end as int, end as int) == Seq::<(Seq<u8>, int)>::empty());
        assert(done + records(b@, end as int, end as int) =~= done);
    }
    Ok(table)
}

/// Range `[start, e)` where `e` is the first `delim` at or after `start + n`
/// (clamped to the end of `b`), or the end of `b` if no such byte follows.
pub fn chunker(start: usize, n: usize, delim: u8, b: &[u8]) -> (r: (usize, usize))
    ensures
        r.0 == start,
        r.1 == find_from(b@, delim, min_int(start + n, b@.len() as int), b@.len() as int),
{
    let end = if start >= b.len() || n > b.len() - start { b.len() } else { start + n };
    let e = find_byte(b, delim, end, b.len());
    (start, e)
}

/// End of the part of `b` that holds lines: a final line feed is left out.
pub open spec fn span_end(b: Seq<u8>) -> int {
    if b.len() > 0 && b.last() == NEWLINE { b.len() - 1 } else { b.len() as int }
}

/// `k` ranges of `b[..n)` from `s` on: each but the last ends at the first line
/// feed at or after its start plus `chunk` (or at `n`); the next starts just
/// after it; the last ends at `n`.
pub open spec fn ranges_from(b: Seq<u8>, n: int, chunk: int, s: int, k: nat) -> Seq<(int, int)>
    decreases k,
{
    if k == 0 {
        seq![]
    } else if k == 1 {
        seq![(s, n)]
    } else {
        let e = find_from(b, NEWLINE, min_int(s + chunk, n), n);
        let nx = if e < n { e + 1 } else { n };
        seq![(s, e)] + ranges_from(b, n, chunk, nx, (k - 1) as nat)
    }
}

/// The `t` ranges that `partition` gives for `b`.
pub open spec fn partition_spec(b: Seq<u8>, t: nat) -> Seq<(int, int)> {
    ranges_from(b, span_end(b), span_end(b) / (t as int), 0, t)
}

pub open spec fn range_ints(v: Seq<(usize, usize)>) -> Seq<(int, int)> {
    v.map_values(|r: (usize, usize)| (r.0 as int, r.1 as int))
}

/// Splits `b` into `threads` line-aligned ranges, one per worker.
pub fn partition(b: &[u8], threads: usize) -> (r: Vec<(usize, usize)>)
    requires
        threads >= 1,
    ensures
        range_ints(r@) == partition_spec(b@, threads as nat),
{
    let n = if b.len() > 0 && b[b.len() - 1] == NEWLINE { b.len() - 1 } else { b.len() };
    let span = vstd::slice::slice_subrange(b, 0, n);
    let chunk = n / threads;
    let ghost whole = partition_spec(b@, threads as nat);
    let mut out: Vec<(usize, usize)> = Vec::new();
    let mut s: usize = 0;
    let mut i: usize = 0;
    while i < threads
        invariant
            n == span_end(b@),
            span@ == b@.subrange(0, n as int),
            chunk as int == (n as int) / (threads as int),
            1 <= threads,
            i <= threads,
            s <= n,
            whole == range_ints(out@) + ranges_from(b@, n as int, chunk as int, s as int, (threads - i) as nat),
        decreases threads - i,
    {
        let ghost pre = out@;
        if i + 1 == threads {
            out.push((s, n));
            proof {
                assert(range_ints(out@) =~= range_ints(pre).push((s as int, n as int)));
                assert(ranges_from(b@, n as int, chunk as int, s as int, 1) == seq![(s as int, n as int)]);
                assert(range_ints(pre) + seq![(s as int, n as int)] =~= range_ints(out@) + ranges_from(b@, n as int, chunk as int, n as int, 0));
            }
        } else {
            let (cs, e) = chunker(s, chunk, NEWLINE, span);
            proof {
                lemma_find_from_bounds(span@, NEWLINE, min_int(s + chunk, n as int), n as int);
                lemma_find_from_prefix(b@, span@, NEWLINE, min_int(s + chunk, n as int), n as int);
            }
            let nx = if e < n { e + 1 } else { n };
            out.push((cs, e));
            proof {
                let k = (threads - i) as nat;
                assert(range_ints(out@) =~= range_ints(pre).push((s as int, e as int)));
                assert(ranges_from(b@, n as int, chunk as int, s as int, k)
                    == seq![(s as int, e as int)] + ranges_from(b@, n as int, chunk as int, nx as int, (k - 1) as nat));
                assert(range_ints(pre) + (seq![(s as int, e as int)] + ranges_from(b@, n as int, chunk as int, nx as int, (k - 1) as nat))
                    =~= range_ints(out@) + ranges_from(b@, n as int, chunk as int, nx as int, (k - 1) as nat));
            }
            s = nx;
        }
        i = i + 1;
    }
    proof {
        assert(range_ints(out@) + seq![] =~= range_ints(out@));
    }
    out
}

/// A search that stays within a prefix finds the same position in the whole.
pub proof fn lemma_find_from_prefix(b: Seq<u8>, p: Seq<u8>, d: u8, i: int, end: int)
    requires
        0 <= i <= end <= p.len() <= b.len(),
        p == b.subrange(0, p.len() as int),
    ensures
        find_from(p, d, i, end) == find_from(b, d, i, end),
    decreases end - i,
{
    if i < end {
        lemma_find_from_prefix(b, p, d, i + 1, end);
    }
}


pub open spec fn after(e: int, n: int) -> int {
    if e < n { e + 1 } else { n }
}

/// The ranges tile `[s, n)`: in order, each starting just after the line feed
/// that ends the one before, the last ending at `n`.
pub open spec fn tiles(b: Seq<u8>, r: Seq<(int, int)>, s: int, n: int) -> bool {
    &&& r.len() >= 1
    &&& r[0].0 == s
    &&& r[r.len() - 1].1 == n
    &&& forall|i: int| 0 <= i < r.len() ==> s <= (#[trigger] r[i]).0 <= r[i].1 <= n
    &&& forall|i: int| 0 <= i < r.len() - 1 ==> #[trigger] r[i + 1].0 == after(r[i].1, n)
    &&& forall|i: int| 0 <= i < r.len() ==> (#[trigger] r[i]).1 == n || b[r[i].1] == NEWLINE
    &&& forall|i: int, j: int| 0 <= i < j < r.len() ==> (#[trigger] r[i]).1 <= (#[trigger] r[j]).0
    &&& forall|p: int| s <= p < n && b[p] != NEWLINE ==>
        exists|i: int| 0 <= i < r.len() && (#[trigger] r[i]).0 <= p < r[i].1
}

/// The `k` ranges from `s` on tile `[s, n)`.
pub proof fn lemma_ranges_tile(b: Seq<u8>, n: int, c: int, s: int, k: nat)
    requires
        k >= 1,
        0 <= s <= n <= b.len(),
        c >= 0,
    ensures
        ranges_from(b, n, c, s, k).len() == k,
        tiles(b, ranges_from(b, n, c, s, k), s, n),
    decreases k,
{
    let r = ranges_from(b, n, c, s, k);
    if k == 1 {
        assert forall|p: int| s <= p < n && b[p] != NEWLINE implies
            exists|i: int| 0 <= i < r.len() && (#[trigger] r[i]).0 <= p < r[i].1 by {
            assert(r[0].0 <= p < r[0].1);
        }
    } else {
        let e = find_from(b, NEWLINE, min_int(s + c, n), n);
        lemma_find_from_bounds(b, NEWLINE, min_int(s + c, n), n);
        let nx = after(e, n);
        let rest = ranges_from(b, n, c, nx, (k - 1) as nat);
        lemma_ranges_tile(b, n, c, nx, (k - 1) as nat);
        assert(r == seq![(s, e)] + rest);
        assert forall|i: int| 0 <= i < r.len() - 1 implies #[trigger] r[i + 1].0 == after(r[i].1, n) by {
            assert(r[i + 1] == rest[i]);
            if i > 0 {
                assert(r[i] == rest[i - 1]);
                assert(rest[(i - 1) + 1].0 == after(rest[i - 1].1, n));
            } else {
                assert(rest[0].0 == nx);
            }
        }
        assert forall|i: int| 0 <= i < r.len() implies s <= (#[trigger] r[i]).0 <= r[i].1 <= n by {
            if i > 0 {
                assert(r[i] == rest[i - 1]);
            }
        }
        assert forall|i: int| 0 <= i < r.len() implies (#[trigger] r[i]).1 == n || b[r[i].1] == NEWLINE by {
            if i > 0 {
                assert(r[i] == rest[i - 1]);
            }
        }
        assert forall|i: int, j: int| 0 <= i < j < r.len() implies (#[trigger] r[i]).1 <= (#[trigger] r[j]).0 by {
            assert(r[j] == rest[j - 1]);
            if i > 0 {
                assert(r[i] == rest[i - 1]);
            }
        }
        assert forall|p: int| s <= p < n && b[p] != NEWLINE implies
            exists|i: int| 0 <= i < r.len() && (#[trigger] r[i]).0 <= p < r[i].1 by {
            if p < e {
                assert(r[0].0 <= p < r[0].1);
            } else {
                assert(p != e);
                let i = choose|i: int| 0 <= i < rest.len() && (#[trigger] rest[i]).0 <= p < rest[i].1;
                assert(r[i + 1] == rest[i]);
            }
        }
    }
}

/// The `t` ranges that a buffer is split into tile the part of the buffer that
/// holds lines: they come in order, do not overlap, start at 0 and end at the
/// end of that part; each but the last ends on a line feed and the next starts
/// just after it, so no range starts or ends inside a line and every byte that
/// is not such a line feed lies in one of them.
pub proof fn lemma_partition_coverage(b: Seq<u8>, t: nat)
    requires
        t >= 1,
    ensures
        partition_spec(b, t).len() == t,
        tiles(b, partition_spec(b, t), 0, span_end(b)),
{
    let n = span_end(b);
    assert(n / (t as int) >= 0) by (nonlinear_arith)
        requires n >= 0, t >= 1;
    lemma_ranges_tile(b, n, n / (t as int), 0, t);
}


/// Aggregating the records of `xs` followed by those of `ys` one by one gives
/// the same table as aggregating each part on its own and merging the results.
pub proof fn lemma_aggregate_split(xs: Seq<(Seq<u8>, int)>, ys: Seq<(Seq<u8>, int)>)
    requires
        forall|i: int| 0 <= i < ys.len() ==> value_in_range(#[trigger] ys[i].1),
    ensures
        aggregate(xs + ys) == merge_maps(aggregate(xs), aggregate(ys)),
    decreases ys.len(),
{
    let a = aggregate(xs);
    if ys.len() == 0 {
        assert(xs + ys =~= xs);
        assert(aggregate(ys) == Map::<Seq<u8>, Agg>::empty());
        assert(merge_maps(a, aggregate(ys)) =~= a);
    } else {
        let ys0 = ys.drop_last();
        let (k, v) = ys.last();
        assert((xs + ys).drop_last() =~= xs + ys0);
        assert((xs + ys).last() == ys.last());
        lemma_aggregate_split(xs, ys0);
        assert(value_in_range(ys[ys.len() - 1].1));
        let m = aggregate(xs + ys0);
        let b0 = aggregate(ys0);
        let lhs = aggregate(xs + ys);
        let rhs = merge_maps(a, aggregate(ys));
        assert(lhs == m.insert(k, agg_update(if m.contains_key(k) { m[k] } else { agg_empty() }, v)));
        assert(aggregate(ys) == b0.insert(k, agg_update(if b0.contains_key(k) { b0[k] } else { agg_empty() }, v)));
        assert(lhs =~= rhs);
    }
}

} // verus!
