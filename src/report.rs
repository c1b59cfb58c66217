use vstd::prelude::*;

use crate::entry::{Agg, WeatherEntry};
use crate::fixed::{render_signed, render_value};
use crate::scan::SEMICOLON;
use crate::table::FnvTable;

verus! {

/// Strict byte-wise lexicographic order; a proper prefix comes first.
pub open spec fn lex_lt(a: Seq<u8>, b: Seq<u8>) -> bool
    decreases a.len(),
{
    if a.len() == 0 {
        b.len() > 0
    } else if b.len() == 0 {
        false
    } else if a[0] != b[0] {
        a[0] < b[0]
    } else {
        lex_lt(a.drop_first(), b.drop_first())
    }
}

pub proof fn lemma_lex_irreflexive(a: Seq<u8>)
    ensures
        !lex_lt(a, a),
    decreases a.len(),
{
    if a.len() > 0 {
        lemma_lex_irreflexive(a.drop_first());
    }
}

pub proof fn lemma_lex_total(a: Seq<u8>, b: Seq<u8>)
    ensures
        a == b || lex_lt(a, b) || lex_lt(b, a),
    decreases a.len(),
{
    if a.len() > 0 && b.len() > 0 && a[0] == b[0] {
        lemma_lex_total(a.drop_first(), b.drop_first());
        if a.drop_first() == b.drop_first() {
            assert(a =~= seq![a[0]] + a.drop_first());
            assert(b =~= seq![b[0]] + b.drop_first());
        }
    } else if a.len() == 0 && b.len() == 0 {
        assert(a =~= b);
    }
}

pub proof fn lemma_lex_transitive(a: Seq<u8>, b: Seq<u8>, c: Seq<u8>)
    requires
        lex_lt(a, b),
        lex_lt(b, c),
    ensures
        lex_lt(a, c),
    decreases a.len(),
{
    if a.len() > 0 && b.len() > 0 && c.len() > 0 && a[0] == b[0] && b[0] == c[0] {
        lemma_lex_transitive(a.drop_first(), b.drop_first(), c.drop_first());
    }
}

pub proof fn lemma_lex_asymmetric(a: Seq<u8>, b: Seq<u8>)
    requires
        lex_lt(a, b),
    ensures
        !lex_lt(b, a),
{
    if lex_lt(b, a) {
        lemma_lex_transitive(a, b, a);
        lemma_lex_irreflexive(a);
    }
}

/// Whether `b[s1..e1]` comes strictly before `b[s2..e2]` in byte order.
pub fn bytes_lt(b: &[u8], s1: usize, e1: usize, s2: usize, e2: usize) -> (r: bool)
    requires
        s1 <= e1 <= b@.len(),
        s2 <= e2 <= b@.len(),
    ensures
        r == lex_lt(b@.subrange(s1 as int, e1 as int), b@.subrange(s2 as int, e2 as int)),
{
    let mut i: usize = 0;
    while s1 + i < e1 && s2 + i < e2
        invariant
            s1 + i <= e1 <= b@.len(),
            s2 + i <= e2 <= b@.len(),
            lex_lt(b@.subrange(s1 as int, e1 as int), b@.subrange(s2 as int, e2 as int))
                == lex_lt(b@.subrange(s1 + i, e1 as int), b@.subrange(s2 + i, e2 as int)),
        decreases e1 - s1 - i,
    {
        let x = b[s1 + i];
        let y = b[s2 + i];
        if x != y {
            return x < y;
        }
        proof {
            assert(b@.subrange(s1 + i, e1 as int).drop_first() =~= b@.subrange(s1 + i + 1, e1 as int));
            assert(b@.subrange(s2 + i, e2 as int).drop_first() =~= b@.subrange(s2 + i + 1, e2 as int));
        }
        i = i + 1;
    }
    s1 + i == e1 && s2 + i < e2
}

pub open spec fn holds_index(v: Seq<usize>, x: int) -> bool {
    exists|i: int| 0 <= i < v.len() && v[i] == x
}

/// Indices of the table's entries, ordered so that their keys ascend strictly.
pub fn sorted_order(table: &FnvTable, b: &[u8]) -> (r: Vec<usize>)
    requires
        table.wf(b@),
    ensures
        r@.len() == table.len_spec(),
        forall|i: int| 0 <= i < r@.len() ==> #[trigger] r@[i] < table.len_spec(),
        forall|x: int| 0 <= x < table.len_spec() ==> #[trigger] holds_index(r@, x),
        forall|i: int, j: int| 0 <= i < j < r@.len() ==>
            lex_lt(table.key_at(b@, r@[i] as int), table.key_at(b@, r@[j] as int)),
{
    let n = table.len();
    let mut out: Vec<usize> = Vec::new();
    let mut j: usize = 0;
    while j < n
        invariant
            table.wf(b@),
            n == table.len_spec(),
            j <= n,
            out@.len() == j,
            forall|i: int| 0 <= i < out@.len() ==> #[trigger] out@[i] < j,
            forall|x: int| 0 <= x < j ==> #[trigger] holds_index(out@, x),
            forall|i: int, k: int| 0 <= i < k < out@.len() ==>
                lex_lt(table.key_at(b@, out@[i] as int), table.key_at(b@, out@[k] as int)),
        decreases n - j,
    {
        let (ks, ke) = table.keys[j];
        proof {
            assert(table.keys@[j as int].0 <= table.keys@[j as int].1 <= b@.len());
        }
        let ghost kj = table.key_at(b@, j as int);
        let mut p: usize = 0;
        while p < out.len()
            invariant
                table.wf(b@),
                n == table.len_spec(),
                j < n,
                kj == table.key_at(b@, j as int),
                ks == table.keys@[j as int].0 && ke == table.keys@[j as int].1,
                ks <= ke <= b@.len(),
                out@.len() == j,
                p <= out@.len(),
                forall|i: int| 0 <= i < out@.len() ==> #[trigger] out@[i] < j,
                forall|i: int| 0 <= i < p ==> !lex_lt(kj, table.key_at(b@, #[trigger] out@[i] as int)),
            ensures
                p <= out@.len(),
                p < out@.len() ==> lex_lt(kj, table.key_at(b@, out@[p as int] as int)),
                forall|i: int| 0 <= i < p ==> !lex_lt(kj, table.key_at(b@, #[trigger] out@[i] as int)),
            decreases out@.len() - p,
        {
            let x = out[p];
            let (xs, xe) = table.keys[x];
            proof {
                assert(table.keys@[x as int].0 <= table.keys@[x as int].1 <= b@.len());
            }
            if bytes_lt(b, ks, ke, xs, xe) {
                break;
            }
            p = p + 1;
        }
        let ghost pre = out@;
        proof {
            assert forall|i: int| 0 <= i < p implies lex_lt(table.key_at(b@, #[trigger] pre[i] as int), kj) by {
                lemma_lex_total(kj, table.key_at(b@, pre[i] as int));
                assert(table.key_at(b@, pre[i] as int) != kj);
            }
            assert forall|i: int| p <= i < pre.len() implies lex_lt(kj, table.key_at(b@, #[trigger] pre[i] as int)) by {
                if i > p {
                    lemma_lex_transitive(kj, table.key_at(b@, pre[p as int] as int), table.key_at(b@, pre[i] as int));
                }
            }
        }
        out.insert(p, j);
        proof {
            assert forall|i: int, k: int| 0 <= i < k < out@.len() implies
                lex_lt(table.key_at(b@, out@[i] as int), table.key_at(b@, out@[k] as int)) by {
                if k < p {
                    assert(out@[i] == pre[i] && out@[k] == pre[k]);
                } else if k == p {
                    assert(out@[i] == pre[i]);
                } else if i < p {
                    assert(out@[i] == pre[i] && out@[k] == pre[k - 1]);
                    lemma_lex_transitive(table.key_at(b@, pre[i] as int), kj, table.key_at(b@, pre[k - 1] as int));
                } else if i == p {
                    assert(out@[k] == pre[k - 1]);
                } else {
                    assert(out@[i] == pre[i - 1] && out@[k] == pre[k - 1]);
                }
            }
            assert forall|x: int| 0 <= x < j + 1 implies #[trigger] holds_index(out@, x) by {
                if x == j {
                    assert(out@[p as int] == x);
                } else {
                    assert(holds_index(pre, x));
                    let i = choose|i: int| 0 <= i < pre.len() && pre[i] == x;
                    if i < p {
                        assert(out@[i] == x);
                    } else {
                        assert(out@[i + 1] == x);
                    }
                }
            }
            assert forall|i: int| 0 <= i < out@.len() implies #[trigger] out@[i] < j + 1 by {
                if i < p {
                    assert(out@[i] == pre[i]);
                } else if i > p {
                    assert(out@[i] == pre[i - 1]);
                }
            }
        }
        j = j + 1;
    }
    out
}


/// Mean of an aggregate in scaled units, rounded toward zero; zero when empty.
pub open spec fn mean_value(a: Agg) -> int {
    if a.count == 0 {
        0
    } else if a.sum < 0 {
        -((-a.sum) / (a.count as int))
    } else {
        a.sum / (a.count as int)
    }
}

/// The report line of key `k`: `key;min;mean;max`.
pub open spec fn row_text(k: Seq<u8>, a: Agg) -> Seq<u8> {
    k + seq![SEMICOLON] + render_value(a.min) + seq![SEMICOLON] + render_value(mean_value(a))
        + seq![SEMICOLON] + render_value(a.max)
}

/// `ks` lists every key of `m` once, in strictly ascending byte order.
pub open spec fn sorted_keys_of(ks: Seq<Seq<u8>>, m: Map<Seq<u8>, Agg>) -> bool {
    &&& forall|i: int, j: int| 0 <= i < j < ks.len() ==> lex_lt(ks[i], ks[j])
    &&& forall|i: int| 0 <= i < ks.len() ==> m.contains_key(#[trigger] ks[i])
    &&& forall|k: Seq<u8>| #[trigger] m.contains_key(k) ==> exists|i: int| 0 <= i < ks.len() && ks[i] == k
}

/// A key listing in strictly ascending order holds no key twice.
pub proof fn lemma_sorted_keys_distinct(ks: Seq<Seq<u8>>, m: Map<Seq<u8>, Agg>)
    requires
        sorted_keys_of(ks, m),
    ensures
        forall|i: int, j: int| 0 <= i < ks.len() && 0 <= j < ks.len() && i != j ==> ks[i] != ks[j],
{
    assert forall|i: int, j: int| 0 <= i < ks.len() && 0 <= j < ks.len() && i != j implies ks[i] != ks[j] by {
        if i < j {
            lemma_lex_irreflexive(ks[i]);
        } else {
            lemma_lex_irreflexive(ks[j]);
        }
    }
}

/// The report order is determined by the keys alone: two listings of the keys
/// of one map, each in strictly ascending byte order, are the same listing.
pub proof fn lemma_sorted_keys_unique(ks1: Seq<Seq<u8>>, ks2: Seq<Seq<u8>>, m: Map<Seq<u8>, Agg>)
    requires
        sorted_keys_of(ks1, m),
        sorted_keys_of(ks2, m),
    ensures
        ks1 == ks2,
    decreases ks1.len(),
{
    if ks1.len() == 0 {
        if ks2.len() > 0 {
            assert(m.contains_key(ks2[0]));
        }
        assert(ks1 =~= ks2);
    } else {
        assert(m.contains_key(ks1[0]));
        if ks2.len() == 0 {
            assert(false);
        }
        let k0 = ks1[0];
        assert(m.contains_key(ks2[0]));
        let j = choose|j: int| 0 <= j < ks2.len() && ks2[j] == k0;
        let i = choose|i: int| 0 <= i < ks1.len() && ks1[i] == ks2[0];
        if j > 0 {
            if i > 0 {
                lemma_lex_asymmetric(ks1[0], ks1[i]);
            } else {
                lemma_lex_irreflexive(ks2[0]);
            }
        }
        assert(ks2[0] == k0);
        let m1 = m.remove(k0);
        let t1 = ks1.drop_first();
        let t2 = ks2.drop_first();
        lemma_sorted_keys_distinct(ks1, m);
        lemma_sorted_keys_distinct(ks2, m);
        assert(sorted_keys_of(t1, m1)) by {
            assert forall|a: int| 0 <= a < t1.len() implies m1.contains_key(#[trigger] t1[a]) by {
                assert(t1[a] == ks1[a + 1]);
                assert(ks1[a + 1] != ks1[0]);
            }
            assert forall|k: Seq<u8>| #[trigger] m1.contains_key(k) implies exists|a: int| 0 <= a < t1.len() && t1[a] == k by {
                assert(m.contains_key(k));
                let a = choose|a: int| 0 <= a < ks1.len() && ks1[a] == k;
                assert(a != 0);
                assert(t1[a - 1] == k);
            }
        }
        assert(sorted_keys_of(t2, m1)) by {
            assert forall|a: int| 0 <= a < t2.len() implies m1.contains_key(#[trigger] t2[a]) by {
                assert(t2[a] == ks2[a + 1]);
                assert(ks2[a + 1] != ks2[0]);
            }
            assert forall|k: Seq<u8>| #[trigger] m1.contains_key(k) implies exists|a: int| 0 <= a < t2.len() && t2[a] == k by {
                assert(m.contains_key(k));
                let a = choose|a: int| 0 <= a < ks2.len() && ks2[a] == k;
                assert(a != 0);
                assert(t2[a - 1] == k);
            }
        }
        lemma_sorted_keys_unique(t1, t2, m1);
        assert(ks1 =~= seq![k0] + t1);
        assert(ks2 =~= seq![k0] + t2);
    }
}

/// The report line of one key and its accumulator.
pub fn render_row(key: &[u8], e: &WeatherEntry) -> (r: Vec<u8>)
    ensures
        r@ == row_text(key@, e.view()),
{
    let mut out: Vec<u8> = Vec::new();
    out.extend_from_slice(key);
    out.push(SEMICOLON);
    let mut min_text = render_signed(e.min < 0, abs_i64(e.min));
    out.append(&mut min_text);
    out.push(SEMICOLON);
    let mag: u128 = if e.sum < 0 { (-(e.sum + 1)) as u128 + 1 } else { e.sum as u128 };
    let q: u128 = if e.cnt == 0 { 0 } else { mag / (e.cnt as u128) };
    let mut mean_text = render_signed(e.sum < 0, q);
    out.append(&mut mean_text);
    out.push(SEMICOLON);
    let mut max_text = render_signed(e.max < 0, abs_i64(e.max));
    out.append(&mut max_text);
    proof {
        assert(out@ =~= row_text(key@, e.view()));
    }
    out
}

fn abs_i64(v: i64) -> (r: u128)
    ensures
        r as int == (if v < 0 { -(v as int) } else { v as int }),
{
    if v < 0 { (-(v as i128)) as u128 } else { v as u128 }
}

/// The report: one line per key of the table, keys in ascending byte order.
pub fn report(table: &FnvTable, b: &[u8]) -> (r: Vec<Vec<u8>>)
    requires
        table.wf(b@),
    ensures
        exists|ks: Seq<Seq<u8>>| #[trigger] sorted_keys_of(ks, table.view_in(b@))
            && r@.len() == ks.len()
            && forall|i: int| 0 <= i < ks.len() ==> (#[trigger] r@[i])@ == row_text(ks[i], table.view_in(b@)[ks[i]]),
{
    let order = sorted_order(table, b);
    let ghost m = table.view_in(b@);
    let ghost ks = order@.map_values(|x: usize| table.key_at(b@, x as int));
    let mut out: Vec<Vec<u8>> = Vec::new();
    let mut i: usize = 0;
    while i < order.len()
        invariant
            table.wf(b@),
            m == table.view_in(b@),
            ks == order@.map_values(|x: usize| table.key_at(b@, x as int)),
            forall|t: int| 0 <= t < order@.len() ==> #[trigger] order@[t] < table.len_spec(),
            i <= order@.len(),
            out@.len() == i,
            forall|t: int| 0 <= t < i ==> (#[trigger] out@[t])@ == row_text(ks[t], m[ks[t]]),
        decreases order@.len() - i,
    {
        let x = order[i];
        let (s, e) = table.keys[x];
        proof {
            assert(order@[i as int] < table.len_spec());
            assert(table.keys@[x as int].0 <= table.keys@[x as int].1 <= b@.len());
            table.lemma_view_index(b@, table.len_spec(), x as int);
        }
        let row = render_row(vstd::slice::slice_subrange(b, s, e), &table.vals[x]);
        out.push(row);
        i = i + 1;
    }
    proof {
        assert forall|t: int| 0 <= t < ks.len() implies m.contains_key(#[trigger] ks[t]) by {
            table.lemma_view_index(b@, table.len_spec(), order@[t] as int);
        }
        assert forall|k: Seq<u8>| #[trigger] m.contains_key(k) implies exists|t: int| 0 <= t < ks.len() && ks[t] == k by {
            let x = choose|x: int| 0 <= x < table.len_spec() && table.key_at(b@, x) == k;
            assert(holds_index(order@, x));
            let t = choose|t: int| 0 <= t < order@.len() && order@[t] == x;
            assert(ks[t] == k);
        }
        assert(sorted_keys_of(ks, m));
    }
    out
}

} // verus!
