//! Net positions and gross exposure of obligation lists, and what
//! multilateral netting keeps of them.
use vstd::prelude::*;

use crate::cycles::{
    acyclic, apply_trace, cancel_edges, group_settled, is_cycle, is_walk, lemma_cancel_edges_index,
    lemma_cycle_edges, live, lemma_walk_facts, min_quantity, positive_only, reduce, source,
    spec_cancel, valid_trace,
};
use crate::netting::{concat_all, multilateral_outcome, of_symbol, symbols_in_order, NetObligation};

verus! {

broadcast use vstd::seq_lib::group_seq_properties;

/// Quantity that `account` receives through one obligation, minus the
/// quantity it delivers through it.
pub open spec fn flow(o: NetObligation, account: u64) -> int {
    (if o.receiver_id == account {
        o.net_quantity as int
    } else {
        0
    }) - (if o.deliverer_id == account {
        o.net_quantity as int
    } else {
        0
    })
}

/// Sum of `f` over the obligations of `symbol`.
pub open spec fn symbol_sum(obs: Seq<NetObligation>, symbol: u64, f: spec_fn(NetObligation) -> int) -> int
    decreases obs.len(),
{
    if obs.len() == 0 {
        0
    } else {
        symbol_sum(obs.drop_last(), symbol, f) + if obs.last().symbol_hash == symbol {
            f(obs.last())
        } else {
            0
        }
    }
}

/// Quantity of `symbol` that `account` receives in total, minus what it
/// delivers in total.
pub open spec fn net_position(obs: Seq<NetObligation>, symbol: u64, account: u64) -> int {
    symbol_sum(obs, symbol, |o: NetObligation| flow(o, account))
}

/// Gross exposure of `symbol`: the sum of its obligation quantities.
pub open spec fn gross_quantity(obs: Seq<NetObligation>, symbol: u64) -> int {
    symbol_sum(obs, symbol, |o: NetObligation| o.net_quantity as int)
}

// ── Sums over concatenations and symbol groups ────────────────────────

proof fn lemma_sum_concat(x: Seq<NetObligation>, y: Seq<NetObligation>, s: u64, f: spec_fn(NetObligation) -> int)
    ensures
        symbol_sum(x + y, s, f) == symbol_sum(x, s, f) + symbol_sum(y, s, f),
    decreases y.len(),
{
    if y.len() == 0 {
        assert(x + y =~= x);
    } else {
        assert((x + y).drop_last() =~= x + y.drop_last());
        assert((x + y).last() == y.last());
        lemma_sum_concat(x, y.drop_last(), s, f);
    }
}

spec fn sum_parts(parts: Seq<Seq<NetObligation>>, s: u64, f: spec_fn(NetObligation) -> int) -> int
    decreases parts.len(),
{
    if parts.len() == 0 {
        0
    } else {
        sum_parts(parts.drop_last(), s, f) + symbol_sum(parts.last(), s, f)
    }
}

proof fn lemma_sum_concat_all(parts: Seq<Seq<NetObligation>>, s: u64, f: spec_fn(NetObligation) -> int)
    ensures
        symbol_sum(concat_all(parts), s, f) == sum_parts(parts, s, f),
    decreases parts.len(),
{
    if parts.len() > 0 {
        lemma_sum_concat_all(parts.drop_last(), s, f);
        lemma_sum_concat(concat_all(parts.drop_last()), parts.last(), s, f);
    }
}

proof fn lemma_sum_of_symbol(x: Seq<NetObligation>, t: u64, s: u64, f: spec_fn(NetObligation) -> int)
    ensures
        symbol_sum(of_symbol(x, t), s, f) == if t == s {
            symbol_sum(x, s, f)
        } else {
            0
        },
    decreases x.len(),
{
    if x.len() > 0 {
        lemma_sum_of_symbol(x.drop_last(), t, s, f);
        if x.last().symbol_hash == t {
            let g = of_symbol(x.drop_last(), t).push(x.last());
            assert(g.drop_last() =~= of_symbol(x.drop_last(), t));
        }
    }
}

proof fn lemma_symbols_in_order(x: Seq<NetObligation>)
    ensures
        symbols_in_order(x).no_duplicates(),
        forall|i: int| 0 <= i < x.len() ==> symbols_in_order(x).contains(#[trigger] x[i].symbol_hash),
        forall|j: int|
            0 <= j < symbols_in_order(x).len() ==> exists|i: int|
                0 <= i < x.len() && x[i].symbol_hash == #[trigger] symbols_in_order(x)[j],
    decreases x.len(),
{
    if x.len() > 0 {
        let d = x.drop_last();
        lemma_symbols_in_order(d);
        let prev = symbols_in_order(d);
        let cur = symbols_in_order(x);
        assert forall|i: int| 0 <= i < x.len() implies cur.contains(#[trigger] x[i].symbol_hash) by {
            if i < x.len() - 1 {
                assert(x[i] == d[i]);
                assert(prev.contains(d[i].symbol_hash));
                if !prev.contains(x.last().symbol_hash) {
                    let w = choose|w: int| 0 <= w < prev.len() && prev[w] == d[i].symbol_hash;
                    assert(cur[w] == prev[w]);
                }
            } else {
                if !prev.contains(x.last().symbol_hash) {
                    assert(cur[prev.len() as int] == x.last().symbol_hash);
                }
            }
        }
        assert forall|j: int| 0 <= j < cur.len() implies exists|i: int|
            0 <= i < x.len() && x[i].symbol_hash == #[trigger] cur[j] by {
            if j < prev.len() {
                assert(cur[j] == prev[j]);
                let i = choose|i: int| 0 <= i < d.len() && d[i].symbol_hash == prev[j];
                assert(x[i] == d[i]);
            } else {
                assert(x[x.len() - 1].symbol_hash == cur[j]);
            }
        }
    }
}

proof fn lemma_sum_absent_symbol(x: Seq<NetObligation>, s: u64, f: spec_fn(NetObligation) -> int)
    requires
        forall|i: int| 0 <= i < x.len() ==> #[trigger] x[i].symbol_hash != s,
    ensures
        symbol_sum(x, s, f) == 0,
    decreases x.len(),
{
    if x.len() > 0 {
        let d = x.drop_last();
        assert forall|i: int| 0 <= i < d.len() implies #[trigger] d[i].symbol_hash != s by {
            assert(d[i] == x[i]);
        }
        lemma_sum_absent_symbol(d, s, f);
        assert(x[x.len() - 1].symbol_hash != s);
    }
}

spec fn sum_groups(syms: Seq<u64>, x: Seq<NetObligation>, s: u64, f: spec_fn(NetObligation) -> int) -> int
    decreases syms.len(),
{
    if syms.len() == 0 {
        0
    } else {
        sum_groups(syms.drop_last(), x, s, f) + symbol_sum(of_symbol(x, syms.last()), s, f)
    }
}

proof fn lemma_sum_groups(syms: Seq<u64>, x: Seq<NetObligation>, s: u64, f: spec_fn(NetObligation) -> int)
    requires
        syms.no_duplicates(),
    ensures
        sum_groups(syms, x, s, f) == if syms.contains(s) {
            symbol_sum(x, s, f)
        } else {
            0
        },
    decreases syms.len(),
{
    if syms.len() > 0 {
        let d = syms.drop_last();
        assert(d.no_duplicates()) by {
            assert forall|a: int, b: int| 0 <= a < d.len() && 0 <= b < d.len() && a != b implies d[a]
                != d[b] by {
                assert(d[a] == syms[a] && d[b] == syms[b]);
            }
        }
        lemma_sum_groups(d, x, s, f);
        lemma_sum_of_symbol(x, syms.last(), s, f);
        if syms.last() == s {
            if d.contains(s) {
                let w = choose|w: int| 0 <= w < d.len() && d[w] == s;
                assert(syms[w] == syms[syms.len() - 1]);
            }
            assert(syms[syms.len() - 1] == s);
        } else {
            if syms.contains(s) {
                let w = choose|w: int| 0 <= w < syms.len() && syms[w] == s;
                assert(w < syms.len() - 1);
                assert(d[w] == s);
            }
            if d.contains(s) {
                let w = choose|w: int| 0 <= w < d.len() && d[w] == s;
                assert(syms[w] == s);
            }
        }
    }
}

/// Summing over the symbol groups of `x` gives the sum over `x`.
proof fn lemma_sum_partition(x: Seq<NetObligation>, s: u64, f: spec_fn(NetObligation) -> int)
    ensures
        sum_groups(symbols_in_order(x), x, s, f) == symbol_sum(x, s, f),
{
    let syms = symbols_in_order(x);
    lemma_symbols_in_order(x);
    lemma_sum_groups(syms, x, s, f);
    if !syms.contains(s) {
        assert forall|i: int| 0 <= i < x.len() implies #[trigger] x[i].symbol_hash != s by {
            assert(syms.contains(x[i].symbol_hash));
        }
        lemma_sum_absent_symbol(x, s, f);
    }
}

// ── Dropping obligations reduced to zero ──────────────────────────────

proof fn lemma_sum_positive_only(x: Seq<NetObligation>, s: u64, f: spec_fn(NetObligation) -> int)
    requires
        forall|o: NetObligation| o.net_quantity == 0 ==> #[trigger] f(o) == 0,
    ensures
        symbol_sum(positive_only(x), s, f) == symbol_sum(x, s, f),
    decreases x.len(),
{
    if x.len() > 0 {
        lemma_sum_positive_only(x.drop_last(), s, f);
        if x.last().net_quantity > 0 {
            let p = positive_only(x.drop_last()).push(x.last());
            assert(p.drop_last() =~= positive_only(x.drop_last()));
        } else {
            assert(f(x.last()) == 0);
        }
    }
}

proof fn lemma_positive_only_facts(x: Seq<NetObligation>)
    ensures
        forall|k: int| 0 <= k < positive_only(x).len() ==> #[trigger] positive_only(x)[k].net_quantity > 0,
    decreases x.len(),
{
    if x.len() > 0 {
        lemma_positive_only_facts(x.drop_last());
        let p = positive_only(x.drop_last());
        if x.last().net_quantity > 0 {
            assert forall|k: int| 0 <= k < positive_only(x).len() implies #[trigger] positive_only(
                x,
            )[k].net_quantity > 0 by {
                if k < p.len() {
                    assert(positive_only(x)[k] == p[k]);
                }
            }
        }
    }
}

// ── One cancelled cycle ───────────────────────────────────────────────

/// All obligations have symbol `s`.
pub open spec fn uniform(x: Seq<NetObligation>, s: u64) -> bool {
    forall|i: int| 0 <= i < x.len() ==> #[trigger] x[i].symbol_hash == s
}

spec fn count_account(nodes: Seq<u64>, a: u64) -> int
    decreases nodes.len(),
{
    if nodes.len() == 0 {
        0
    } else {
        count_account(nodes.drop_last(), a) + if nodes.last() == a {
            1int
        } else {
            0int
        }
    }
}

proof fn lemma_count_concat(x: Seq<u64>, y: Seq<u64>, a: u64)
    ensures
        count_account(x + y, a) == count_account(x, a) + count_account(y, a),
    decreases y.len(),
{
    if y.len() == 0 {
        assert(x + y =~= x);
    } else {
        assert((x + y).drop_last() =~= x + y.drop_last());
        assert((x + y).last() == y.last());
        lemma_count_concat(x, y.drop_last(), a);
    }
}

spec fn delivs(x: Seq<NetObligation>, c: Seq<usize>) -> Seq<u64> {
    c.map_values(|i: usize| x[i as int].deliverer_id)
}

spec fn recvs(x: Seq<NetObligation>, c: Seq<usize>) -> Seq<u64> {
    c.map_values(|i: usize| x[i as int].receiver_id)
}

proof fn lemma_sum_update(y: Seq<NetObligation>, j: int, v: NetObligation, s: u64, f: spec_fn(NetObligation) -> int)
    requires
        0 <= j < y.len(),
    ensures
        symbol_sum(y.update(j, v), s, f) == symbol_sum(y, s, f) - (if y[j].symbol_hash == s {
            f(y[j])
        } else {
            0
        }) + (if v.symbol_hash == s {
            f(v)
        } else {
            0
        }),
    decreases y.len(),
{
    let u = y.update(j, v);
    if j == y.len() - 1 {
        assert(u.drop_last() =~= y.drop_last());
    } else {
        assert(u.drop_last() =~= y.drop_last().update(j, v));
        lemma_sum_update(y.drop_last(), j, v, s, f);
    }
}

proof fn lemma_cancel_edges_position(x: Seq<NetObligation>, c: Seq<usize>, m: u64, s: u64, a: u64)
    requires
        x.len() <= usize::MAX,
        uniform(x, s),
        forall|k: int| 0 <= k < c.len() ==> #[trigger] c[k] < x.len(),
        forall|p: int, q: int| 0 <= p < q < c.len() ==> c[p] != c[q],
        forall|k: int| 0 <= k < c.len() ==> m <= x[#[trigger] c[k] as int].net_quantity,
    ensures
        net_position(cancel_edges(x, c, m), s, a) == net_position(x, s, a) + m * (count_account(
            delivs(x, c),
            a,
        ) - count_account(recvs(x, c), a)),
    decreases c.len(),
{
    let f = |o: NetObligation| flow(o, a);
    if c.len() == 0 {
        assert(delivs(x, c) =~= Seq::<u64>::empty());
        assert(recvs(x, c) =~= Seq::<u64>::empty());
    } else {
        let d = c.drop_last();
        let j = c.last() as int;
        lemma_cancel_edges_position(x, d, m, s, a);
        lemma_cancel_edges_index(x, d, m);
        let y = cancel_edges(x, d, m);
        assert(!d.contains(c.last())) by {
            if d.contains(c.last()) {
                let w = choose|w: int| 0 <= w < d.len() && d[w] == c.last();
                assert(c[w] == c[c.len() - 1]);
            }
        }
        assert(y[j] == x[j]);
        assert(c[c.len() - 1] < x.len());
        assert(m <= x[c[c.len() - 1] as int].net_quantity);
        let r = reduce(x[j], m);
        lemma_sum_update(y, j, r, s, f);
        assert(delivs(x, c).drop_last() =~= delivs(x, d));
        assert(recvs(x, c).drop_last() =~= recvs(x, d));
        assert(delivs(x, c).last() == x[j].deliverer_id);
        assert(recvs(x, c).last() == x[j].receiver_id);
        let dd = if x[j].deliverer_id == a {
            1int
        } else {
            0int
        };
        let rr = if x[j].receiver_id == a {
            1int
        } else {
            0int
        };
        assert(flow(r, a) - flow(x[j], a) == m * (dd - rr)) by {
            assert(r.net_quantity == x[j].net_quantity - m);
            if dd == 1 && rr == 0 {
                assert(m * (dd - rr) == m) by (nonlinear_arith)
                    requires
                        dd == 1 && rr == 0,
                ;
            } else if dd == 0 && rr == 1 {
                assert(m * (dd - rr) == -m) by (nonlinear_arith)
                    requires
                        dd == 0 && rr == 1,
                ;
            } else {
                assert(m * (dd - rr) == 0) by (nonlinear_arith)
                    requires
                        dd == rr,
                ;
            }
        }
        let cd = count_account(delivs(x, d), a);
        let cr = count_account(recvs(x, d), a);
        assert(m * (cd - cr) + m * (dd - rr) == m * ((cd + dd) - (cr + rr))) by (nonlinear_arith);
    }
}

proof fn lemma_cycle_balanced(x: Seq<NetObligation>, c: Seq<usize>, a: u64)
    requires
        is_cycle(x, c),
    ensures
        count_account(delivs(x, c), a) == count_account(recvs(x, c), a),
{
    let n = c.len();
    lemma_walk_facts(x, c, source(x, c, 0), source(x, c, 0));
    let ds = delivs(x, c);
    let rs = recvs(x, c);
    let tail = ds.subrange(1, n as int);
    assert(rs =~= tail.push(ds[0])) by {
        assert forall|k: int| 0 <= k < n implies rs[k] == tail.push(ds[0])[k] by {
            if k < n - 1 {
                assert(x[c[k] as int].receiver_id == x[c[k + 1] as int].deliverer_id);
            }
        }
    }
    assert(ds =~= seq![ds[0]] + tail);
    lemma_count_concat(seq![ds[0]], tail, a);
    lemma_count_concat(tail, seq![ds[0]], a);
    assert(tail.push(ds[0]) =~= tail + seq![ds[0]]);
    assert(seq![ds[0]].drop_last() =~= Seq::<u64>::empty());
}

proof fn lemma_cancel_keeps_symbols(x: Seq<NetObligation>, c: Seq<usize>, s: u64)
    requires
        x.len() <= usize::MAX,
        uniform(x, s),
        is_cycle(x, c),
    ensures
        spec_cancel(x, c).len() == x.len(),
        uniform(spec_cancel(x, c), s),
        forall|i: int| 0 <= i < x.len() ==> #[trigger] spec_cancel(x, c)[i].net_quantity <= x[i].net_quantity,
{
    let m = min_quantity(x, c);
    lemma_cycle_edges(x, c);
    lemma_cancel_edges_index(x, c, m);
    assert forall|i: int| 0 <= i < x.len() implies #[trigger] spec_cancel(x, c)[i].net_quantity
        <= x[i].net_quantity by {
        if c.contains(i as usize) {
            let w = choose|w: int| 0 <= w < c.len() && c[w] == i as usize;
            assert(m <= x[c[w] as int].net_quantity);
        }
    }
    assert forall|i: int| 0 <= i < x.len() implies #[trigger] spec_cancel(x, c)[i].symbol_hash == s by {
        assert(x[i].symbol_hash == s);
    }
}

/// Cancelling a cycle within one symbol keeps every account's net position.
proof fn lemma_cancel_keeps_position(x: Seq<NetObligation>, c: Seq<usize>, s0: u64, s: u64, a: u64)
    requires
        x.len() <= usize::MAX,
        uniform(x, s0),
        is_cycle(x, c),
    ensures
        net_position(spec_cancel(x, c), s, a) == net_position(x, s, a),
{
    let m = min_quantity(x, c);
    lemma_cycle_edges(x, c);
    lemma_cancel_keeps_symbols(x, c, s0);
    if s == s0 {
        assert forall|k: int| 0 <= k < c.len() implies #[trigger] c[k] < x.len() by {
            assert(0 <= c[k] < x.len());
        }
        lemma_cancel_edges_position(x, c, m, s, a);
        lemma_cycle_balanced(x, c, a);
        assert(m * 0 == 0);
    } else {
        let f = |o: NetObligation| flow(o, a);
        assert forall|i: int| 0 <= i < x.len() implies #[trigger] x[i].symbol_hash != s by {
            assert(x[i].symbol_hash == s0);
        }
        let y = spec_cancel(x, c);
        assert forall|i: int| 0 <= i < y.len() implies #[trigger] y[i].symbol_hash != s by {
            assert(y[i].symbol_hash == s0);
        }
        lemma_sum_absent_symbol(x, s, f);
        lemma_sum_absent_symbol(y, s, f);
    }
}

proof fn lemma_sum_pointwise_le(x: Seq<NetObligation>, y: Seq<NetObligation>, s: u64)
    requires
        x.len() == y.len(),
        forall|i: int| 0 <= i < x.len() ==> #[trigger] y[i].symbol_hash == x[i].symbol_hash,
        forall|i: int| 0 <= i < x.len() ==> #[trigger] y[i].net_quantity <= x[i].net_quantity,
    ensures
        gross_quantity(y, s) <= gross_quantity(x, s),
    decreases x.len(),
{
    if x.len() > 0 {
        let xd = x.drop_last();
        let yd = y.drop_last();
        assert forall|i: int| 0 <= i < xd.len() implies #[trigger] yd[i].symbol_hash
            == xd[i].symbol_hash && yd[i].net_quantity <= xd[i].net_quantity by {
            assert(xd[i] == x[i] && yd[i] == y[i]);
        }
        lemma_sum_pointwise_le(xd, yd, s);
        assert(y[y.len() - 1].net_quantity <= x[x.len() - 1].net_quantity);
        assert(y[y.len() - 1].symbol_hash == x[x.len() - 1].symbol_hash);
    }
}

// ── A whole group ─────────────────────────────────────────────────────

proof fn lemma_trace_facts(g: Seq<NetObligation>, trace: Seq<Seq<usize>>, s0: u64, s: u64, a: u64)
    requires
        g.len() <= usize::MAX,
        uniform(g, s0),
        valid_trace(g, trace),
    ensures
        apply_trace(g, trace).len() == g.len(),
        uniform(apply_trace(g, trace), s0),
        net_position(apply_trace(g, trace), s, a) == net_position(g, s, a),
        gross_quantity(apply_trace(g, trace), s) <= gross_quantity(g, s),
    decreases trace.len(),
{
    if trace.len() > 0 {
        let t = trace.drop_last();
        lemma_trace_facts(g, t, s0, s, a);
        let x = apply_trace(g, t);
        lemma_cancel_keeps_symbols(x, trace.last(), s0);
        lemma_cancel_keeps_position(x, trace.last(), s0, s, a);
        let y = spec_cancel(x, trace.last());
        assert forall|i: int| 0 <= i < x.len() implies #[trigger] y[i].symbol_hash == x[i].symbol_hash by {
            assert(x[i].symbol_hash == s0);
        }
        lemma_sum_pointwise_le(x, y, s);
    }
}

proof fn lemma_of_symbol_uniform(x: Seq<NetObligation>, t: u64)
    ensures
        uniform(of_symbol(x, t), t),
        of_symbol(x, t).len() <= x.len(),
    decreases x.len(),
{
    if x.len() > 0 {
        lemma_of_symbol_uniform(x.drop_last(), t);
        let p = of_symbol(x.drop_last(), t);
        if x.last().symbol_hash == t {
            assert forall|i: int| 0 <= i < p.len() + 1 implies #[trigger] p.push(x.last())[i].symbol_hash == t by {
                if i < p.len() {
                    assert(p.push(x.last())[i] == p[i]);
                }
            }
        }
    }
}

/// Per group: net positions are kept and gross exposure does not grow.
proof fn lemma_group_settled_facts(
    input: Seq<NetObligation>,
    t: u64,
    out: Seq<NetObligation>,
    s: u64,
    a: u64,
)
    requires
        input.len() <= usize::MAX,
        group_settled(of_symbol(input, t), out),
    ensures
        net_position(out, s, a) == net_position(of_symbol(input, t), s, a),
        gross_quantity(out, s) <= gross_quantity(of_symbol(input, t), s),
{
    let g = of_symbol(input, t);
    lemma_of_symbol_uniform(input, t);
    let trace = choose|trace: Seq<Seq<usize>>|
        #![trigger apply_trace(g, trace)]
        valid_trace(g, trace) && acyclic(apply_trace(g, trace)) && out == positive_only(
            apply_trace(g, trace),
        );
    lemma_trace_facts(g, trace, t, s, a);
    let fp = |o: NetObligation| flow(o, a);
    let fq = |o: NetObligation| o.net_quantity as int;
    lemma_sum_positive_only(apply_trace(g, trace), s, fp);
    lemma_sum_positive_only(apply_trace(g, trace), s, fq);
}

proof fn lemma_parts_sums(input: Seq<NetObligation>, parts: Seq<Seq<NetObligation>>, syms: Seq<u64>, s: u64, a: u64)
    requires
        input.len() <= usize::MAX,
        parts.len() == syms.len(),
        forall|j: int| 0 <= j < parts.len() ==> group_settled(of_symbol(input, syms[j]), #[trigger] parts[j]),
    ensures
        sum_parts(parts, s, |o: NetObligation| flow(o, a)) == sum_groups(syms, input, s, |o: NetObligation| flow(o, a)),
        sum_parts(parts, s, |o: NetObligation| o.net_quantity as int) <= sum_groups(
            syms,
            input,
            s,
            |o: NetObligation| o.net_quantity as int,
        ),
    decreases parts.len(),
{
    if parts.len() > 0 {
        let n = parts.len();
        assert forall|j: int| 0 <= j < n - 1 implies group_settled(
            of_symbol(input, syms.drop_last()[j]),
            #[trigger] parts.drop_last()[j],
        ) by {
            assert(parts.drop_last()[j] == parts[j]);
            assert(syms.drop_last()[j] == syms[j]);
        }
        lemma_parts_sums(input, parts.drop_last(), syms.drop_last(), s, a);
        assert(group_settled(of_symbol(input, syms[n - 1]), parts[n - 1]));
        lemma_group_settled_facts(input, syms.last(), parts.last(), s, a);
    }
}

// ── Laws ──────────────────────────────────────────────────────────────

/// Multilateral netting preserves settlement: for every symbol, each
/// account's net position (quantity received minus quantity delivered) is the
/// same before and after cycle cancellation.
pub proof fn law_multilateral_keeps_net_positions(
    input: Seq<NetObligation>,
    output: Seq<NetObligation>,
    symbol: u64,
    account: u64,
)
    requires
        input.len() <= usize::MAX,
        multilateral_outcome(input, output),
    ensures
        net_position(output, symbol, account) == net_position(input, symbol, account),
{
    let syms = symbols_in_order(input);
    let parts = choose|parts: Seq<Seq<NetObligation>>|
        #![trigger concat_all(parts)]
        parts.len() == syms.len() && (forall|j: int|
            0 <= j < parts.len() ==> group_settled(of_symbol(input, syms[j]), #[trigger] parts[j]))
            && output == concat_all(parts);
    let f = |o: NetObligation| flow(o, account);
    lemma_parts_sums(input, parts, syms, symbol, account);
    lemma_sum_concat_all(parts, symbol, f);
    lemma_sum_partition(input, symbol, f);
}

/// Multilateral netting never increases the gross exposure of a symbol (the
/// sum of its obligation quantities).
pub proof fn law_multilateral_gross_not_increased(
    input: Seq<NetObligation>,
    output: Seq<NetObligation>,
    symbol: u64,
)
    requires
        input.len() <= usize::MAX,
        multilateral_outcome(input, output),
    ensures
        gross_quantity(output, symbol) <= gross_quantity(input, symbol),
{
    let syms = symbols_in_order(input);
    let parts = choose|parts: Seq<Seq<NetObligation>>|
        #![trigger concat_all(parts)]
        parts.len() == syms.len() && (forall|j: int|
            0 <= j < parts.len() ==> group_settled(of_symbol(input, syms[j]), #[trigger] parts[j]))
            && output == concat_all(parts);
    let f = |o: NetObligation| o.net_quantity as int;
    lemma_parts_sums(input, parts, syms, symbol, 0);
    lemma_sum_concat_all(parts, symbol, f);
    lemma_sum_partition(input, symbol, f);
}


proof fn lemma_concat_all_positive(parts: Seq<Seq<NetObligation>>)
    requires
        forall|j: int, k: int|
            0 <= j < parts.len() && 0 <= k < parts[j].len() ==> #[trigger] parts[j][k].net_quantity > 0,
    ensures
        forall|k: int| 0 <= k < concat_all(parts).len() ==> #[trigger] concat_all(parts)[k].net_quantity > 0,
    decreases parts.len(),
{
    if parts.len() > 0 {
        let d = parts.drop_last();
        assert forall|j: int, k: int| 0 <= j < d.len() && 0 <= k < d[j].len() implies #[trigger] d[j][k].net_quantity > 0 by {
            assert(d[j] == parts[j]);
        }
        lemma_concat_all_positive(d);
        let a = concat_all(d);
        let l = parts.last();
        assert forall|k: int| 0 <= k < concat_all(parts).len() implies #[trigger] concat_all(parts)[k].net_quantity > 0 by {
            if k < a.len() {
                assert(concat_all(parts)[k] == a[k]);
            } else {
                assert(concat_all(parts)[k] == l[k - a.len()]);
                assert(parts[parts.len() - 1][k - a.len()].net_quantity > 0);
            }
        }
    }
}

/// Multilateral netting leaves no obligation with a zero quantity.
pub proof fn law_multilateral_quantities_positive(input: Seq<NetObligation>, output: Seq<NetObligation>)
    requires
        multilateral_outcome(input, output),
    ensures
        forall|k: int| 0 <= k < output.len() ==> #[trigger] output[k].net_quantity > 0,
{
    let syms = symbols_in_order(input);
    let parts = choose|parts: Seq<Seq<NetObligation>>|
        #![trigger concat_all(parts)]
        parts.len() == syms.len() && (forall|j: int|
            0 <= j < parts.len() ==> group_settled(of_symbol(input, syms[j]), #[trigger] parts[j]))
            && output == concat_all(parts);
    assert forall|j: int, k: int| 0 <= j < parts.len() && 0 <= k < parts[j].len() implies #[trigger] parts[j][k].net_quantity > 0 by {
        let g = of_symbol(input, syms[j]);
        assert(group_settled(g, parts[j]));
        let trace = choose|trace: Seq<Seq<usize>>|
            #![trigger apply_trace(g, trace)]
            valid_trace(g, trace) && acyclic(apply_trace(g, trace)) && parts[j] == positive_only(
                apply_trace(g, trace),
            );
        lemma_positive_only_facts(apply_trace(g, trace));
    }
    lemma_concat_all_positive(parts);
}

proof fn lemma_trace_first_cycle(g: Seq<NetObligation>, trace: Seq<Seq<usize>>)
    requires
        valid_trace(g, trace),
        trace.len() > 0,
    ensures
        is_cycle(g, trace[0]),
    decreases trace.len(),
{
    if trace.len() > 1 {
        lemma_trace_first_cycle(g, trace.drop_last());
        assert(trace.drop_last()[0] == trace[0]);
    }
}

/// Without cycles there is nothing to cancel: when no symbol's obligations
/// form a cycle, multilateral netting only groups the obligations by symbol
/// and drops those with a zero quantity.
pub proof fn law_multilateral_acyclic_unchanged(input: Seq<NetObligation>, output: Seq<NetObligation>)
    requires
        multilateral_outcome(input, output),
        forall|s: u64| #[trigger] acyclic(of_symbol(input, s)),
    ensures
        output == concat_all(
            Seq::new(
                symbols_in_order(input).len(),
                |j: int| positive_only(of_symbol(input, symbols_in_order(input)[j])),
            ),
        ),
{
    let syms = symbols_in_order(input);
    let parts = choose|parts: Seq<Seq<NetObligation>>|
        #![trigger concat_all(parts)]
        parts.len() == syms.len() && (forall|j: int|
            0 <= j < parts.len() ==> group_settled(of_symbol(input, syms[j]), #[trigger] parts[j]))
            && output == concat_all(parts);
    let expected = Seq::new(syms.len(), |j: int| positive_only(of_symbol(input, syms[j])));
    assert forall|j: int| 0 <= j < parts.len() implies parts[j] == expected[j] by {
        let g = of_symbol(input, syms[j]);
        assert(group_settled(g, parts[j]));
        let trace = choose|trace: Seq<Seq<usize>>|
            #![trigger apply_trace(g, trace)]
            valid_trace(g, trace) && acyclic(apply_trace(g, trace)) && parts[j] == positive_only(
                apply_trace(g, trace),
            );
        if trace.len() > 0 {
            lemma_trace_first_cycle(g, trace);
            assert(acyclic(g));
            assert(!is_cycle(g, trace[0]));
        }
    }
    assert(parts =~= expected);
}

// ── No cycle is left ──────────────────────────────────────────────────

proof fn lemma_positive_only_source(x: Seq<NetObligation>)
    ensures
        positive_only(x).len() <= x.len(),
        forall|k: int|
            #![trigger positive_only(x)[k]]
            0 <= k < positive_only(x).len() ==> exists|i: int| 0 <= i < x.len() && #[trigger] x[i] == positive_only(x)[k],
    decreases x.len(),
{
    if x.len() > 0 {
        let d = x.drop_last();
        lemma_positive_only_source(d);
        let p = positive_only(d);
        assert forall|k: int|
            #![trigger positive_only(x)[k]]
            0 <= k < positive_only(x).len() implies exists|i: int|
            0 <= i < x.len() && #[trigger] x[i] == positive_only(x)[k] by {
            if k < p.len() {
                assert(positive_only(x)[k] == p[k]);
                let i = choose|i: int| 0 <= i < d.len() && #[trigger] d[i] == p[k];
                assert(x[i] == d[i]);
            } else {
                assert(positive_only(x)[k] == x[x.len() - 1]);
            }
        }
    }
}

/// A walk stays a walk when each of its edges is replaced by an equal edge of
/// another list.
proof fn lemma_walk_transfer(
    x: Seq<NetObligation>,
    p: Seq<usize>,
    y: Seq<NetObligation>,
    q: Seq<usize>,
    from: u64,
    to: u64,
)
    requires
        is_walk(x, p, from, to),
        q.len() == p.len(),
        forall|k: int| 0 <= k < p.len() ==> #[trigger] q[k] < y.len() && y[q[k] as int] == x[p[k] as int],
    ensures
        is_walk(y, q, from, to),
    decreases p.len(),
{
    if p.len() > 0 {
        let pt = p.drop_first();
        let qt = q.drop_first();
        assert forall|k: int| 0 <= k < pt.len() implies #[trigger] qt[k] < y.len() && y[qt[k] as int]
            == x[pt[k] as int] by {
            assert(qt[k] == q[k + 1]);
            assert(pt[k] == p[k + 1]);
        }
        lemma_walk_transfer(x, pt, y, qt, x[p[0] as int].receiver_id, to);
        assert(q[0] < y.len() && y[q[0] as int] == x[p[0] as int]);
    }
}

/// Dropping the obligations reduced to zero keeps a list free of cycles and
/// keeps its symbol.
proof fn lemma_positive_only_keeps(x: Seq<NetObligation>, t: u64)
    requires
        x.len() <= usize::MAX,
        acyclic(x),
        uniform(x, t),
    ensures
        acyclic(positive_only(x)),
        uniform(positive_only(x), t),
{
    let po = positive_only(x);
    lemma_positive_only_source(x);
    assert forall|k: int| 0 <= k < po.len() implies #[trigger] po[k].symbol_hash == t by {
        let i = choose|i: int| 0 <= i < x.len() && #[trigger] x[i] == po[k];
        assert(x[i].symbol_hash == t);
    }
    assert forall|c: Seq<usize>| !is_cycle(po, c) by {
        if is_cycle(po, c) {
            let first = source(po, c, 0);
            lemma_walk_facts(po, c, first, first);
            let d = Seq::new(
                c.len(),
                |k: int| (choose|i: int| 0 <= i < x.len() && #[trigger] x[i] == po[c[k] as int]) as usize,
            );
            assert forall|k: int| 0 <= k < c.len() implies #[trigger] d[k] < x.len() && x[d[k] as int]
                == po[c[k] as int] by {
                assert(live(po, c[k] as int));
                assert(po[c[k] as int] == po[c[k] as int]);
            }
            lemma_walk_transfer(po, c, x, d, first, first);
            assert forall|a: int, b: int| 0 <= a < b < d.len() implies source(x, d, a) != source(
                x,
                d,
                b,
            ) by {
                assert(source(po, c, a) != source(po, c, b));
            }
            assert(source(x, d, 0) == first);
            assert(is_cycle(x, d));
        }
    }
}

/// What cycle cancellation leaves of one symbol group has that symbol and
/// no cycle.
proof fn lemma_settled_part(input: Seq<NetObligation>, t: u64, out: Seq<NetObligation>)
    requires
        input.len() <= usize::MAX,
        group_settled(of_symbol(input, t), out),
    ensures
        uniform(out, t),
        acyclic(out),
{
    let g = of_symbol(input, t);
    let trace = choose|trace: Seq<Seq<usize>>|
        #![trigger apply_trace(g, trace)]
        valid_trace(g, trace) && acyclic(apply_trace(g, trace)) && out == positive_only(
            apply_trace(g, trace),
        );
    lemma_of_symbol_uniform(input, t);
    lemma_trace_facts(g, trace, t, t, 0);
    lemma_positive_only_keeps(apply_trace(g, trace), t);
}

/// Multilateral netting cancels cycles until none remain: in its result the
/// obligations of any one symbol form no cycle.
pub proof fn law_multilateral_leaves_no_cycle(input: Seq<NetObligation>, output: Seq<NetObligation>, symbol: u64)
    requires
        input.len() <= usize::MAX,
        multilateral_outcome(input, output),
    ensures
        acyclic(of_symbol(output, symbol)),
{
    let syms = symbols_in_order(input);
    let parts = choose|parts: Seq<Seq<NetObligation>>|
        #![trigger concat_all(parts)]
        parts.len() == syms.len() && (forall|j: int|
            0 <= j < parts.len() ==> group_settled(of_symbol(input, syms[j]), #[trigger] parts[j]))
            && output == concat_all(parts);
    lemma_symbols_in_order(input);
    assert forall|j: int| 0 <= j < parts.len() implies uniform(#[trigger] parts[j], syms[j]) && acyclic(
        parts[j],
    ) by {
        lemma_settled_part(input, syms[j], parts[j]);
    }
    lemma_of_symbol_parts(parts, syms, symbol);
    if syms.contains(symbol) {
        let j = choose|j: int| 0 <= j < syms.len() && syms[j] == symbol;
        assert(of_symbol(output, symbol) == parts[j]);
    } else {
        let e = of_symbol(output, symbol);
        assert(e.len() == 0);
        assert forall|c: Seq<usize>| !is_cycle(e, c) by {
            if is_cycle(e, c) {
                lemma_walk_facts(e, c, source(e, c, 0), source(e, c, 0));
                assert(live(e, c[0] as int));
            }
        }
    }
}

// ── What is left of each obligation ───────────────────────────────────

/// `o` is what is left of `src`: the same symbol, the same deliverer and
/// receiver, the same trade count, and a quantity no larger.
pub open spec fn remnant_of(o: NetObligation, src: NetObligation) -> bool {
    &&& o.symbol_hash == src.symbol_hash
    &&& o.deliverer_id == src.deliverer_id
    &&& o.receiver_id == src.receiver_id
    &&& o.trade_count == src.trade_count
    &&& o.net_quantity <= src.net_quantity
}

proof fn lemma_cancel_remnant(x: Seq<NetObligation>, c: Seq<usize>)
    requires
        x.len() <= usize::MAX,
        is_cycle(x, c),
    ensures
        spec_cancel(x, c).len() == x.len(),
        forall|i: int| 0 <= i < x.len() ==> remnant_of(#[trigger] spec_cancel(x, c)[i], x[i]),
{
    let m = min_quantity(x, c);
    lemma_cycle_edges(x, c);
    assert forall|k: int| 0 <= k < c.len() implies #[trigger] c[k] < x.len() by {
        assert(live(x, c[k] as int));
    }
    lemma_cancel_edges_index(x, c, m);
    assert forall|i: int| 0 <= i < x.len() implies remnant_of(#[trigger] spec_cancel(x, c)[i], x[i]) by {
        if c.contains(i as usize) {
            let w = choose|w: int| 0 <= w < c.len() && c[w] == i as usize;
            assert(m <= x[c[w] as int].net_quantity);
        }
    }
}

proof fn lemma_trace_remnant(g: Seq<NetObligation>, trace: Seq<Seq<usize>>)
    requires
        g.len() <= usize::MAX,
        valid_trace(g, trace),
    ensures
        apply_trace(g, trace).len() == g.len(),
        forall|i: int| 0 <= i < g.len() ==> remnant_of(#[trigger] apply_trace(g, trace)[i], g[i]),
    decreases trace.len(),
{
    if trace.len() > 0 {
        let t = trace.drop_last();
        lemma_trace_remnant(g, t);
        let x = apply_trace(g, t);
        lemma_cancel_remnant(x, trace.last());
        assert forall|i: int| 0 <= i < g.len() implies remnant_of(#[trigger] apply_trace(g, trace)[i], g[i]) by {
            assert(remnant_of(x[i], g[i]));
            assert(remnant_of(spec_cancel(x, trace.last())[i], x[i]));
        }
    }
}

proof fn lemma_of_symbol_source(x: Seq<NetObligation>, t: u64, k: int) -> (i: int)
    requires
        0 <= k < of_symbol(x, t).len(),
    ensures
        0 <= i < x.len(),
        x[i] == of_symbol(x, t)[k],
    decreases x.len(),
{
    let d = x.drop_last();
    let p = of_symbol(d, t);
    if k < p.len() {
        assert(of_symbol(x, t)[k] == p[k]);
        let i = lemma_of_symbol_source(d, t, k);
        assert(x[i] == d[i]);
        i
    } else {
        assert(of_symbol(x, t)[k] == x[x.len() - 1]);
        x.len() - 1
    }
}

proof fn lemma_concat_all_source(parts: Seq<Seq<NetObligation>>, k: int) -> (jl: (int, int))
    requires
        0 <= k < concat_all(parts).len(),
    ensures
        0 <= jl.0 < parts.len(),
        0 <= jl.1 < parts[jl.0].len(),
        parts[jl.0][jl.1] == concat_all(parts)[k],
    decreases parts.len(),
{
    let d = parts.drop_last();
    let a = concat_all(d);
    let n = parts.len() - 1;
    if k < a.len() {
        assert(concat_all(parts)[k] == a[k]);
        let (j, l) = lemma_concat_all_source(d, k);
        assert(parts[j] == d[j]);
        (j, l)
    } else {
        assert(concat_all(parts)[k] == parts[n][k - a.len()]);
        (n, k - a.len())
    }
}

proof fn lemma_remnant_at(input: Seq<NetObligation>, output: Seq<NetObligation>, k: int) -> (i: int)
    requires
        input.len() <= usize::MAX,
        multilateral_outcome(input, output),
        0 <= k < output.len(),
    ensures
        0 <= i < input.len(),
        remnant_of(output[k], input[i]),
{
    let syms = symbols_in_order(input);
    let parts = choose|parts: Seq<Seq<NetObligation>>|
        #![trigger concat_all(parts)]
        parts.len() == syms.len() && (forall|j: int|
            0 <= j < parts.len() ==> group_settled(of_symbol(input, syms[j]), #[trigger] parts[j]))
            && output == concat_all(parts);
    let (j, l) = lemma_concat_all_source(parts, k);
    let t = syms[j];
    let g = of_symbol(input, t);
    assert(group_settled(g, parts[j]));
    let trace = choose|trace: Seq<Seq<usize>>|
        #![trigger apply_trace(g, trace)]
        valid_trace(g, trace) && acyclic(apply_trace(g, trace)) && parts[j] == positive_only(
            apply_trace(g, trace),
        );
    let y = apply_trace(g, trace);
    lemma_positive_only_source(y);
    assert(positive_only(y)[l] == parts[j][l]);
    let m = choose|m: int| 0 <= m < y.len() && #[trigger] y[m] == positive_only(y)[l];
    lemma_of_symbol_uniform(input, t);
    lemma_trace_remnant(g, trace);
    assert(remnant_of(y[m], g[m]));
    lemma_of_symbol_source(input, t, m)
}

/// Multilateral netting only reduces the obligations it is given: each
/// obligation it returns is what is left of one of them, with the same
/// symbol, deliverer, receiver and trade count and a quantity no larger.
pub proof fn law_multilateral_reduces_obligations(input: Seq<NetObligation>, output: Seq<NetObligation>)
    requires
        input.len() <= usize::MAX,
        multilateral_outcome(input, output),
    ensures
        forall|k: int|
            #![trigger output[k]]
            0 <= k < output.len() ==> exists|i: int| 0 <= i < input.len() && remnant_of(output[k], #[trigger] input[i]),
{
    assert forall|k: int|
        #![trigger output[k]]
        0 <= k < output.len() implies exists|i: int| 0 <= i < input.len() && remnant_of(output[k], #[trigger] input[i]) by {
        let i = lemma_remnant_at(input, output, k);
        assert(remnant_of(output[k], input[i]));
    }
}

proof fn lemma_of_symbol_concat(x: Seq<NetObligation>, y: Seq<NetObligation>, s: u64)
    ensures
        of_symbol(x + y, s) == of_symbol(x, s) + of_symbol(y, s),
    decreases y.len(),
{
    if y.len() == 0 {
        assert(x + y =~= x);
        assert(of_symbol(x, s) + of_symbol(y, s) =~= of_symbol(x, s));
    } else {
        let yd = y.drop_last();
        lemma_of_symbol_concat(x, yd, s);
        assert((x + y).drop_last() =~= x + yd);
        assert((x + y).last() == y.last());
        if y.last().symbol_hash == s {
            assert(of_symbol(x, s) + of_symbol(y, s) =~= (of_symbol(x, s) + of_symbol(yd, s)).push(
                y.last(),
            ));
        }
    }
}

proof fn lemma_of_symbol_of_uniform(x: Seq<NetObligation>, t: u64, s: u64)
    requires
        uniform(x, t),
    ensures
        of_symbol(x, s) == if s == t {
            x
        } else {
            Seq::<NetObligation>::empty()
        },
    decreases x.len(),
{
    if x.len() > 0 {
        let d = x.drop_last();
        assert forall|i: int| 0 <= i < d.len() implies #[trigger] d[i].symbol_hash == t by {
            assert(d[i] == x[i]);
        }
        lemma_of_symbol_of_uniform(d, t, s);
        assert(x[x.len() - 1].symbol_hash == t);
        if s == t {
            assert(d.push(x.last()) =~= x);
        }
    }
}

proof fn lemma_of_symbol_parts(parts: Seq<Seq<NetObligation>>, syms: Seq<u64>, s: u64)
    requires
        parts.len() == syms.len(),
        syms.no_duplicates(),
        forall|j: int| 0 <= j < parts.len() ==> uniform(#[trigger] parts[j], syms[j]),
    ensures
        forall|j: int| 0 <= j < syms.len() && #[trigger] syms[j] == s ==> of_symbol(concat_all(parts), s) == parts[j],
        !syms.contains(s) ==> of_symbol(concat_all(parts), s) == Seq::<NetObligation>::empty(),
    decreases parts.len(),
{
    if parts.len() > 0 {
        let n = parts.len() - 1;
        let pd = parts.drop_last();
        let sd = syms.drop_last();
        assert(sd.no_duplicates()) by {
            assert forall|a: int, b: int| 0 <= a < sd.len() && 0 <= b < sd.len() && a != b implies sd[a]
                != sd[b] by {
                assert(sd[a] == syms[a] && sd[b] == syms[b]);
            }
        }
        assert forall|j: int| 0 <= j < pd.len() implies uniform(#[trigger] pd[j], sd[j]) by {
            assert(pd[j] == parts[j]);
            assert(sd[j] == syms[j]);
        }
        lemma_of_symbol_parts(pd, sd, s);
        lemma_of_symbol_concat(concat_all(pd), parts.last(), s);
        assert(uniform(parts[n], syms[n]));
        lemma_of_symbol_of_uniform(parts.last(), syms.last(), s);
        if syms.last() == s {
            if sd.contains(s) {
                let w = choose|w: int| 0 <= w < sd.len() && sd[w] == s;
                assert(syms[w] == syms[n]);
            }
            assert(of_symbol(concat_all(pd), s) =~= Seq::<NetObligation>::empty());
            assert(Seq::<NetObligation>::empty() + parts.last() =~= parts.last());
            assert forall|j: int| 0 <= j < syms.len() && #[trigger] syms[j] == s implies of_symbol(
                concat_all(parts),
                s,
            ) == parts[j] by {
                assert(j == n);
            }
        } else {
            assert(of_symbol(concat_all(pd), s) + Seq::<NetObligation>::empty() =~= of_symbol(
                concat_all(pd),
                s,
            ));
            assert forall|j: int| 0 <= j < syms.len() && #[trigger] syms[j] == s implies of_symbol(
                concat_all(parts),
                s,
            ) == parts[j] by {
                assert(j < n);
                assert(sd[j] == syms[j]);
                assert(pd[j] == parts[j]);
            }
            if sd.contains(s) {
                let w = choose|w: int| 0 <= w < sd.len() && sd[w] == s;
                assert(syms[w] == s);
            }
        }
    }
}

// ── Total gross exposure ──────────────────────────────────────────────

/// Sum of all obligation quantities, over every symbol.
pub open spec fn total_quantity(obs: Seq<NetObligation>) -> int
    decreases obs.len(),
{
    if obs.len() == 0 {
        0
    } else {
        total_quantity(obs.drop_last()) + obs.last().net_quantity
    }
}

spec fn total_of_groups(syms: Seq<u64>, x: Seq<NetObligation>) -> int
    decreases syms.len(),
{
    if syms.len() == 0 {
        0
    } else {
        total_of_groups(syms.drop_last(), x) + total_quantity(of_symbol(x, syms.last()))
    }
}

spec fn total_of_parts(parts: Seq<Seq<NetObligation>>) -> int
    decreases parts.len(),
{
    if parts.len() == 0 {
        0
    } else {
        total_of_parts(parts.drop_last()) + total_quantity(parts.last())
    }
}

proof fn lemma_total_concat(x: Seq<NetObligation>, y: Seq<NetObligation>)
    ensures
        total_quantity(x + y) == total_quantity(x) + total_quantity(y),
    decreases y.len(),
{
    if y.len() == 0 {
        assert(x + y =~= x);
    } else {
        lemma_total_concat(x, y.drop_last());
        assert((x + y).drop_last() =~= x + y.drop_last());
        assert((x + y).last() == y.last());
    }
}

proof fn lemma_total_concat_all(parts: Seq<Seq<NetObligation>>)
    ensures
        total_quantity(concat_all(parts)) == total_of_parts(parts),
    decreases parts.len(),
{
    if parts.len() > 0 {
        lemma_total_concat_all(parts.drop_last());
        lemma_total_concat(concat_all(parts.drop_last()), parts.last());
    }
}

proof fn lemma_total_uniform(x: Seq<NetObligation>, t: u64)
    requires
        uniform(x, t),
    ensures
        total_quantity(x) == gross_quantity(x, t),
    decreases x.len(),
{
    if x.len() > 0 {
        let d = x.drop_last();
        assert forall|i: int| 0 <= i < d.len() implies #[trigger] d[i].symbol_hash == t by {
            assert(d[i] == x[i]);
        }
        lemma_total_uniform(d, t);
        assert(x[x.len() - 1].symbol_hash == t);
    }
}

proof fn lemma_total_groups_empty(syms: Seq<u64>)
    ensures
        total_of_groups(syms, Seq::<NetObligation>::empty()) == 0,
    decreases syms.len(),
{
    if syms.len() > 0 {
        lemma_total_groups_empty(syms.drop_last());
    }
}

proof fn lemma_total_groups_step(syms: Seq<u64>, x: Seq<NetObligation>)
    requires
        syms.no_duplicates(),
        x.len() > 0,
    ensures
        total_of_groups(syms, x) == total_of_groups(syms, x.drop_last()) + if syms.contains(
            x.last().symbol_hash,
        ) {
            x.last().net_quantity as int
        } else {
            0
        },
    decreases syms.len(),
{
    if syms.len() > 0 {
        let sd = syms.drop_last();
        let u = syms.last();
        let d = x.drop_last();
        let l = x.last();
        assert(sd.no_duplicates()) by {
            assert forall|a: int, b: int| 0 <= a < sd.len() && 0 <= b < sd.len() && a != b implies sd[a]
                != sd[b] by {
                assert(sd[a] == syms[a] && sd[b] == syms[b]);
            }
        }
        lemma_total_groups_step(sd, x);
        if l.symbol_hash == u {
            assert(of_symbol(x, u).drop_last() =~= of_symbol(d, u));
            if sd.contains(u) {
                let w = choose|w: int| 0 <= w < sd.len() && sd[w] == u;
                assert(syms[w] == syms[syms.len() - 1]);
            }
            assert(syms[syms.len() - 1] == u);
        } else {
            if syms.contains(l.symbol_hash) {
                let w = choose|w: int| 0 <= w < syms.len() && syms[w] == l.symbol_hash;
                assert(w < syms.len() - 1);
                assert(sd[w] == l.symbol_hash);
            }
            if sd.contains(l.symbol_hash) {
                let w = choose|w: int| 0 <= w < sd.len() && sd[w] == l.symbol_hash;
                assert(syms[w] == l.symbol_hash);
            }
        }
    }
}

/// Summing the totals of the symbol groups of `x` gives the total of `x`.
proof fn lemma_total_groups(syms: Seq<u64>, x: Seq<NetObligation>)
    requires
        syms.no_duplicates(),
        forall|i: int| 0 <= i < x.len() ==> syms.contains(#[trigger] x[i].symbol_hash),
    ensures
        total_of_groups(syms, x) == total_quantity(x),
    decreases x.len(),
{
    if x.len() == 0 {
        lemma_total_groups_empty(syms);
        assert(x =~= Seq::<NetObligation>::empty());
    } else {
        let d = x.drop_last();
        assert forall|i: int| 0 <= i < d.len() implies syms.contains(#[trigger] d[i].symbol_hash) by {
            assert(d[i] == x[i]);
        }
        lemma_total_groups(syms, d);
        lemma_total_groups_step(syms, x);
        assert(syms.contains(x[x.len() - 1].symbol_hash));
    }
}

proof fn lemma_parts_totals(input: Seq<NetObligation>, parts: Seq<Seq<NetObligation>>, syms: Seq<u64>)
    requires
        input.len() <= usize::MAX,
        parts.len() == syms.len(),
        forall|j: int| 0 <= j < parts.len() ==> group_settled(of_symbol(input, syms[j]), #[trigger] parts[j]),
    ensures
        total_of_parts(parts) <= total_of_groups(syms, input),
    decreases parts.len(),
{
    if parts.len() > 0 {
        let n = parts.len() - 1;
        assert forall|j: int| 0 <= j < n implies group_settled(
            of_symbol(input, syms.drop_last()[j]),
            #[trigger] parts.drop_last()[j],
        ) by {
            assert(parts.drop_last()[j] == parts[j]);
            assert(syms.drop_last()[j] == syms[j]);
        }
        lemma_parts_totals(input, parts.drop_last(), syms.drop_last());
        let t = syms.last();
        assert(group_settled(of_symbol(input, syms[n]), parts[n]));
        lemma_settled_part(input, t, parts.last());
        lemma_group_settled_facts(input, t, parts.last(), t, 0);
        lemma_of_symbol_uniform(input, t);
        lemma_total_uniform(parts.last(), t);
        lemma_total_uniform(of_symbol(input, t), t);
    }
}

/// Multilateral netting never increases the total gross exposure: the sum of
/// all obligation quantities, over every symbol, does not grow.
pub proof fn law_multilateral_total_gross_not_increased(input: Seq<NetObligation>, output: Seq<NetObligation>)
    requires
        input.len() <= usize::MAX,
        multilateral_outcome(input, output),
    ensures
        total_quantity(output) <= total_quantity(input),
{
    let syms = symbols_in_order(input);
    let parts = choose|parts: Seq<Seq<NetObligation>>|
        #![trigger concat_all(parts)]
        parts.len() == syms.len() && (forall|j: int|
            0 <= j < parts.len() ==> group_settled(of_symbol(input, syms[j]), #[trigger] parts[j]))
            && output == concat_all(parts);
    lemma_symbols_in_order(input);
    lemma_total_concat_all(parts);
    lemma_parts_totals(input, parts, syms);
    lemma_total_groups(syms, input);
}

} // verus!
