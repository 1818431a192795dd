//! The netlist as a hypergraph for placement: cells are nodes, signals are edges. The mobile
//! cells come first, the position-locked ones last.

use vstd::prelude::*;

use crate::design::{BitVector, Cell as DesignCell, NetMetadata, Parameter, ParameterValue, PlacedDesign, Position, Signal as DesignSignal};
use crate::placement_cell::LegalizedCell;
use crate::BLOCKS_PER_TIER;
use crate::placer::Signal;
use crate::yosys::{Cell, ConstOrSignal, NetName};

verus! {

/// `v` with the elements at `i` and `j` exchanged.
fn vec_swap<T>(v: &mut Vec<T>, i: usize, j: usize)
    requires
        i < j < old(v)@.len(),
    ensures
        final(v)@ == old(v)@.update(i as int, old(v)@[j as int]).update(j as int, old(v)@[i as int]),
{
    let b = v.remove(j);
    let a = v.remove(i);
    v.insert(i, b);
    v.insert(j, a);
    proof {
        assert(final(v)@ =~= old(v)@.update(i as int, old(v)@[j as int]).update(j as int, old(v)@[i as int]));
    }
}

/// `p` is a permutation of `[0, n)`.
pub open spec fn is_permutation(p: Seq<int>, n: int) -> bool {
    &&& p.len() == n
    &&& forall|i: int| 0 <= i < n ==> 0 <= #[trigger] p[i] < n
    &&& forall|i: int, j: int| 0 <= i < j < n ==> p[i] != p[j]
}

/// The cells now at the positions `p` are those that were at `0, 1, ...`: `after[p[i]]` is
/// `before[i]`.
pub open spec fn moved_by<T>(before: Seq<T>, after: Seq<T>, p: Seq<int>) -> bool {
    &&& after.len() == before.len()
    &&& forall|i: int| 0 <= i < before.len() ==> after[#[trigger] p[i]] == before[i]
}

/// Every connection of every signal is a cell index below `n`.
pub open spec fn signals_within(signals: Seq<Signal>, n: int) -> bool {
    forall|s: int, c: int| 0 <= s < signals.len() && 0 <= c < signals[s].connected_cells@.len()
        ==> (#[trigger] signals[s].connected_cells@[c]) < n
}

/// The signals `after` are the signals `before` with every cell index `c` replaced by `p[c]`.
pub open spec fn signals_moved_by(before: Seq<Signal>, after: Seq<Signal>, p: Seq<int>) -> bool {
    &&& after.len() == before.len()
    &&& forall|s: int| 0 <= s < before.len() ==> {
        &&& (#[trigger] after[s]).moveable_cells == before[s].moveable_cells
        &&& after[s].connected_cells@.len() == before[s].connected_cells@.len()
        &&& forall|c: int| 0 <= c < before[s].connected_cells@.len()
            ==> after[s].connected_cells@[c] == p[before[s].connected_cells@[c] as int]
    }
}

/// Move the position-locked cells to the end of the cell list, keeping `metadata` and
/// `locked` in step with the cells and making the signals refer to the cells' new places.
/// Returns how many cells are mobile: afterwards exactly the cells before that index are
/// mobile.
///
/// Locked cells found from the front are exchanged with the last mobile cell still behind
/// them. There must be at least one mobile and one locked cell.
#[verifier::rlimit(60)]
pub fn partition_locked_last<C, M>(cells: &mut Vec<C>, metadata: &mut Vec<M>, locked: &mut Vec<bool>, signals: &mut Vec<Signal>) -> (mobile: usize)
    requires
        old(cells)@.len() == old(locked)@.len(),
        old(metadata)@.len() == old(locked)@.len(),
        exists|i: int| 0 <= i < old(locked)@.len() && old(locked)@[i],
        exists|i: int| 0 <= i < old(locked)@.len() && !old(locked)@[i],
        signals_within(old(signals)@, old(locked)@.len() as int),
    ensures
        mobile <= final(locked)@.len(),
        forall|i: int| 0 <= i < final(locked)@.len() ==> #[trigger] final(locked)@[i] == (i >= mobile),
        exists|p: Seq<int>| {
            &&& #[trigger] is_permutation(p, old(locked)@.len() as int)
            &&& moved_by(old(cells)@, final(cells)@, p)
            &&& moved_by(old(metadata)@, final(metadata)@, p)
            &&& moved_by(old(locked)@, final(locked)@, p)
            &&& signals_moved_by(old(signals)@, final(signals)@, p)
        },
{
    let n = locked.len();
    let ghost c0 = cells@;
    let ghost m0 = metadata@;
    let ghost l0 = locked@;
    // `at[q]` is the original index of the cell now at `q`; `p` is its inverse.
    let mut at: Vec<usize> = Vec::new();
    let mut q: usize = 0;
    while q < n
        invariant
            q <= n,
            at@.len() == q,
            forall|r: int| 0 <= r < q ==> #[trigger] at@[r] == r,
        decreases n - q,
    {
        at.push(q);
        q = q + 1;
    }
    let ghost mut p: Seq<int> = Seq::new(n as nat, |i: int| i);
    let mut next_mobile_index: usize = n - 1;
    while locked[next_mobile_index]
        invariant
            locked@ == l0,
            n == l0.len(),
            next_mobile_index < n,
            forall|r: int| next_mobile_index < r < n ==> #[trigger] l0[r],
            exists|i: int| 0 <= i <= next_mobile_index && !l0[i],
        decreases next_mobile_index,
    {
        next_mobile_index = next_mobile_index - 1;
    }
    let mut mobile_cell_count: usize = 0;
    let mut i: usize = 0;
    while i < n
        invariant
            n == locked@.len(),
            cells@.len() == n,
            metadata@.len() == n,
            at@.len() == n,
            i <= next_mobile_index + 1,
            next_mobile_index < n,
            mobile_cell_count <= i,
            !locked@[next_mobile_index as int],
            forall|r: int| 0 <= r < i ==> !#[trigger] locked@[r],
            forall|r: int| next_mobile_index < r < n ==> #[trigger] locked@[r],
            is_permutation(p, n as int),
            forall|r: int| 0 <= r < n ==> #[trigger] at@[r] < n && p[at@[r] as int] == r,
            forall|r: int| 0 <= r < n ==> at@[#[trigger] p[r]] == r,
            moved_by(c0, cells@, p),
            moved_by(m0, metadata@, p),
            moved_by(l0, locked@, p),
        ensures
            i >= next_mobile_index,
            n == locked@.len(),
            cells@.len() == n,
            metadata@.len() == n,
            at@.len() == n,
            next_mobile_index < n,
            mobile_cell_count <= i,
            i <= next_mobile_index + 1,
            !locked@[next_mobile_index as int],
            forall|r: int| 0 <= r < i ==> !#[trigger] locked@[r],
            forall|r: int| next_mobile_index < r < n ==> #[trigger] locked@[r],
            is_permutation(p, n as int),
            forall|r: int| 0 <= r < n ==> #[trigger] at@[r] < n && p[at@[r] as int] == r,
            forall|r: int| 0 <= r < n ==> at@[#[trigger] p[r]] == r,
            moved_by(c0, cells@, p),
            moved_by(m0, metadata@, p),
            moved_by(l0, locked@, p),
        decreases n - i,
    {
        if i >= next_mobile_index {
            break;
        }
        if locked[i] {
            let ghost ai = at@[i as int] as int;
            let ghost an = at@[next_mobile_index as int] as int;
            vec_swap(cells, i, next_mobile_index);
            vec_swap(metadata, i, next_mobile_index);
            vec_swap(locked, i, next_mobile_index);
            let a_i = at[i];
            let a_n = at[next_mobile_index];
            at.set(i, a_n);
            at.set(next_mobile_index, a_i);
            proof {
                let j = next_mobile_index as int;
                let ii = i as int;
                assert(p[ai] == ii);
                assert(p[an] == j);
                p = p.update(ai, j).update(an, ii);
                assert forall|r: int| 0 <= r < n implies at@[#[trigger] p[r]] == r by {
                    if r == ai {
                    } else if r == an {
                    } else {
                        assert(p[r] != ii && p[r] != j);
                    }
                }
                assert forall|r: int, s: int| 0 <= r < s < n implies p[r] != p[s] by {
                    assert(at@[p[r]] == r);
                    assert(at@[p[s]] == s);
                }
                assert forall|r: int| 0 <= r < c0.len() implies cells@[#[trigger] p[r]] == c0[r] by {
                    if r != ai && r != an {
                        assert(p[r] != ii && p[r] != j);
                    }
                }
                assert forall|r: int| 0 <= r < m0.len() implies metadata@[#[trigger] p[r]] == m0[r] by {
                    if r != ai && r != an {
                        assert(p[r] != ii && p[r] != j);
                    }
                }
                assert forall|r: int| 0 <= r < l0.len() implies locked@[#[trigger] p[r]] == l0[r] by {
                    if r != ai && r != an {
                        assert(p[r] != ii && p[r] != j);
                    }
                }
            }
            while locked[next_mobile_index]
                invariant
                    n == locked@.len(),
                    i < n,
                    i <= next_mobile_index < n,
                    !locked@[i as int],
                    forall|r: int| next_mobile_index < r < n ==> #[trigger] locked@[r],
                decreases next_mobile_index,
            {
                next_mobile_index = next_mobile_index - 1;
            }
        } else {
            mobile_cell_count = mobile_cell_count + 1;
        }
        i = i + 1;
    }
    // Everything up to `next_mobile_index` is mobile, everything after it locked.
    proof {
        assert forall|r: int| 0 <= r <= next_mobile_index implies !#[trigger] locked@[r] by {
            if r >= i {
                assert(r == next_mobile_index);
            }
        }
        let w = choose|w: int| 0 <= w < l0.len() && l0[w];
        assert(locked@[p[w]] == l0[w]);
        assert(next_mobile_index + 1 < n);
    }
    while !locked[mobile_cell_count]
        invariant
            n == locked@.len(),
            next_mobile_index + 1 < n,
            mobile_cell_count <= next_mobile_index + 1,
            forall|r: int| 0 <= r <= next_mobile_index ==> !#[trigger] locked@[r],
            forall|r: int| next_mobile_index < r < n ==> #[trigger] locked@[r],
        decreases n - mobile_cell_count,
    {
        mobile_cell_count = mobile_cell_count + 1;
    }
    // Rewrite the signals to the cells' new places.
    let ghost s0 = signals@;
    let mut new_index: Vec<usize> = Vec::new();
    let mut q: usize = 0;
    while q < n
        invariant
            q <= n,
            new_index@.len() == q,
            at@.len() == n,
            forall|r: int| 0 <= r < n ==> #[trigger] at@[r] < n && p[at@[r] as int] == r,
            forall|r: int| 0 <= r < n ==> at@[#[trigger] p[r]] == r,
            is_permutation(p, n as int),
            forall|r: int| 0 <= r < q ==> #[trigger] new_index@[r] == p[r],
        decreases n - q,
    {
        // The cell that was at `q` is now where `at` names `q`; find it through `p`.
        let mut t: usize = 0;
        while at[t] != q
            invariant
                t < n,
                at@.len() == n,
                q < n,
                t <= p[q as int],
                is_permutation(p, n as int),
                forall|r: int| 0 <= r < n ==> at@[#[trigger] p[r]] == r,
            decreases p[q as int] - t,
        {
            t = t + 1;
        }
        proof {
            assert(at@[t as int] == q);
            assert(p[at@[t as int] as int] == t);
        }
        new_index.push(t);
        q = q + 1;
    }
    let mut rewritten: Vec<Signal> = Vec::new();
    let ns = signals.len();
    let mut s: usize = 0;
    while s < ns
        invariant
            ns == s0.len(),
            signals@ == s0,
            s <= ns,
            rewritten@.len() == s,
            new_index@.len() == n,
            forall|r: int| 0 <= r < n ==> #[trigger] new_index@[r] == p[r],
            signals_within(s0, n as int),
            forall|k: int| 0 <= k < s ==> {
                &&& (#[trigger] rewritten@[k]).moveable_cells == s0[k].moveable_cells
                &&& rewritten@[k].connected_cells@.len() == s0[k].connected_cells@.len()
                &&& forall|c: int| 0 <= c < s0[k].connected_cells@.len()
                    ==> rewritten@[k].connected_cells@[c] == p[s0[k].connected_cells@[c] as int]
            },
        decreases ns - s,
    {
        let old_cells = &signals[s].connected_cells;
        let mut connected: Vec<usize> = Vec::new();
        let mut c: usize = 0;
        while c < old_cells.len()
            invariant
                c <= old_cells@.len(),
                old_cells@ == s0[s as int].connected_cells@,
                s < s0.len(),
                connected@.len() == c,
                new_index@.len() == n,
                forall|r: int| 0 <= r < n ==> #[trigger] new_index@[r] == p[r],
                signals_within(s0, n as int),
                forall|k: int| 0 <= k < c ==> #[trigger] connected@[k] == p[old_cells@[k] as int],
            decreases old_cells@.len() - c,
        {
            proof {
                assert(s0[s as int].connected_cells@[c as int] < n);
            }
            connected.push(new_index[old_cells[c]]);
            c = c + 1;
        }
        rewritten.push(Signal { connected_cells: connected, moveable_cells: signals[s].moveable_cells });
        s = s + 1;
    }
    *signals = rewritten;
    proof {
        assert(signals_moved_by(s0, signals@, p));
        assert(is_permutation(p, n as int));
    }
    mobile_cell_count
}

/// The signal numbers a cell's ports connect to, port by port, bit by bit; constants are
/// left out.
pub open spec fn port_signals(conns: Seq<(String, Vec<ConstOrSignal>)>) -> Seq<i64>
    decreases conns.len(),
{
    if conns.len() == 0 {
        seq![]
    } else {
        port_signals(conns.drop_last()) + bit_signals(conns.last().1@)
    }
}

/// The signal numbers among connection bits, in order.
pub open spec fn bit_signals(bits: Seq<ConstOrSignal>) -> Seq<i64>
    decreases bits.len(),
{
    if bits.len() == 0 {
        seq![]
    } else {
        bit_signals(bits.drop_last()) + match bits.last() {
            ConstOrSignal::Signal(s) => seq![s],
            ConstOrSignal::Const(_) => seq![],
        }
    }
}

proof fn lemma_connections_bounded(cells: Seq<(String, Cell)>)
    ensures
        forall|i: int| 0 <= i < cell_connections(cells).len() ==> (#[trigger] cell_connections(cells)[i]).0 < cells.len(),
    decreases cells.len(),
{
    if cells.len() > 0 {
        lemma_connections_bounded(cells.drop_last());
        let pre = cell_connections(cells.drop_last());
        let c = (cells.len() - 1) as usize;
        let tail = port_signals(cells.last().1.connections@).map_values(|s: i64| (c, s));
        assert forall|i: int| 0 <= i < cell_connections(cells).len() implies (#[trigger] cell_connections(cells)[i]).0 < cells.len() by {
            if i < pre.len() {
                assert(cell_connections(cells)[i] == pre[i]);
            } else {
                assert(cell_connections(cells)[i] == tail[i - pre.len()]);
            }
        }
    }
}

proof fn lemma_group_bounds(conns: Seq<(usize, i64)>, n: int)
    requires
        forall|i: int| 0 <= i < conns.len() ==> (#[trigger] conns[i]).0 < n,
    ensures
        forall|j: int| 0 <= j < group_connections(conns).len() ==> forall|t: int| 0 <= t < (#[trigger] group_connections(conns)[j]).1.len()
            ==> group_connections(conns)[j].1[t] < n,
    decreases conns.len(),
{
    if conns.len() > 0 {
        let d = conns.drop_last();
        assert forall|i: int| 0 <= i < d.len() implies (#[trigger] d[i]).0 < n by {
            assert(d[i] == conns[i]);
        }
        lemma_group_bounds(d, n);
        let g = group_connections(d);
        let (c, s) = conns.last();
        assert(c < n) by {
            assert(conns[conns.len() - 1].0 < n);
        }
        let g2 = group_connections(conns);
        assert forall|j: int| 0 <= j < g2.len() implies forall|t: int| 0 <= t < (#[trigger] g2[j]).1.len() ==> g2[j].1[t] < n by {
            if exists|k: int| 0 <= k < g.len() && g[k].0 == s {
                let k = choose|k: int| 0 <= k < g.len() && g[k].0 == s;
                if j != k {
                    assert(g2[j] == g[j]);
                }
            } else {
                if j < g.len() {
                    assert(g2[j] == g[j]);
                }
            }
        }
    }
}

/// Every (cell index, signal number) connection of the cells, cell by cell.
pub open spec fn cell_connections(cells: Seq<(String, Cell)>) -> Seq<(usize, i64)>
    decreases cells.len(),
{
    if cells.len() == 0 {
        seq![]
    } else {
        let c = (cells.len() - 1) as usize;
        cell_connections(cells.drop_last()) + port_signals(cells.last().1.connections@).map_values(|s: i64| (c, s))
    }
}

/// The connections grouped by signal number, signals in order of first appearance, each
/// with its cell indices in order of appearance.
pub open spec fn group_connections(conns: Seq<(usize, i64)>) -> Seq<(i64, Seq<usize>)>
    decreases conns.len(),
{
    if conns.len() == 0 {
        seq![]
    } else {
        let g = group_connections(conns.drop_last());
        let (c, s) = conns.last();
        if exists|k: int| 0 <= k < g.len() && g[k].0 == s {
            let k = choose|k: int| 0 <= k < g.len() && g[k].0 == s;
            g.update(k, (s, g[k].1.push(c)))
        } else {
            g.push((s, seq![c]))
        }
    }
}

/// How many of the cells `cs` are mobile.
pub open spec fn mobile_count(cs: Seq<usize>, locked: Seq<bool>) -> nat
    decreases cs.len(),
{
    if cs.len() == 0 {
        0
    } else {
        mobile_count(cs.drop_last(), locked) + if locked[cs.last() as int] { 0nat } else { 1nat }
    }
}

proof fn lemma_mobile_count_same(cs0: Seq<usize>, l0: Seq<bool>, cs1: Seq<usize>, l1: Seq<bool>)
    requires
        cs1.len() == cs0.len(),
        forall|c: int| 0 <= c < cs0.len() ==> l1[#[trigger] cs1[c] as int] == l0[cs0[c] as int],
    ensures
        mobile_count(cs1, l1) == mobile_count(cs0, l0),
    decreases cs0.len(),
{
    if cs0.len() > 0 {
        assert forall|c: int| 0 <= c < cs0.drop_last().len() implies l1[#[trigger] cs1.drop_last()[c] as int] == l0[cs0.drop_last()[c] as int] by {
            assert(cs1.drop_last()[c] == cs1[c]);
        }
        lemma_mobile_count_same(cs0.drop_last(), l0, cs1.drop_last(), l1);
        assert(l1[cs1[cs0.len() - 1] as int] == l0[cs0[cs0.len() - 1] as int]);
    }
}

/// Moving the cells by a permutation, as [`partition_locked_last`] does, keeps every signal's
/// count of mobile cells right for the cells' new places.
pub proof fn lemma_partition_keeps_mobile_counts(l0: Seq<bool>, l1: Seq<bool>, s0: Seq<Signal>, s1: Seq<Signal>, p: Seq<int>)
    requires
        is_permutation(p, l0.len() as int),
        moved_by(l0, l1, p),
        signals_moved_by(s0, s1, p),
        signals_within(s0, l0.len() as int),
        forall|k: int| 0 <= k < s0.len() ==> (#[trigger] s0[k]).moveable_cells == mobile_count(s0[k].connected_cells@, l0),
    ensures
        forall|k: int| 0 <= k < s1.len() ==> (#[trigger] s1[k]).moveable_cells == mobile_count(s1[k].connected_cells@, l1),
{
    assert forall|k: int| 0 <= k < s1.len() implies (#[trigger] s1[k]).moveable_cells == mobile_count(s1[k].connected_cells@, l1) by {
        let cs0 = s0[k].connected_cells@;
        let cs1 = s1[k].connected_cells@;
        assert(s1[k].moveable_cells == s0[k].moveable_cells);
        assert forall|c: int| 0 <= c < cs0.len() implies l1[#[trigger] cs1[c] as int] == l0[cs0[c] as int] by {
            assert(cs0[c] < l0.len());
            assert(cs1[c] == p[cs0[c] as int]);
            assert(l1[p[cs0[c] as int]] == l0[cs0[c] as int]);
        }
        lemma_mobile_count_same(cs0, l0, cs1, l1);
    }
}

/// The groups as they stand in a vector.
pub open spec fn groups_view(g: Seq<(i64, Vec<usize>)>) -> Seq<(i64, Seq<usize>)> {
    g.map_values(|e: (i64, Vec<usize>)| (e.0, e.1@))
}

/// Signal numbers are distinct.
pub open spec fn distinct_keys(g: Seq<(i64, Seq<usize>)>) -> bool {
    forall|a: int, b: int| 0 <= a < b < g.len() ==> g[a].0 != g[b].0
}

fn add_connection(groups: &mut Vec<(i64, Vec<usize>)>, s: i64, c: usize)
    requires
        distinct_keys(groups_view(old(groups)@)),
    ensures
        distinct_keys(groups_view(final(groups)@)),
        ({
            let g = groups_view(old(groups)@);
            groups_view(final(groups)@) == if exists|k: int| 0 <= k < g.len() && g[k].0 == s {
                let k = choose|k: int| 0 <= k < g.len() && g[k].0 == s;
                g.update(k, (s, g[k].1.push(c)))
            } else {
                g.push((s, seq![c]))
            }
        }),
{
    let ghost g = groups_view(groups@);
    let n = groups.len();
    let mut k: usize = 0;
    while k < n
        invariant
            n == groups@.len(),
            groups@ == old(groups)@,
            g == groups_view(old(groups)@),
            distinct_keys(g),
            k <= n,
            forall|j: int| 0 <= j < k ==> groups@[j].0 != s,
        decreases n - k,
    {
        if groups[k].0 == s {
            proof {
                let kk = choose|kk: int| 0 <= kk < g.len() && g[kk].0 == s;
                assert(g[k as int].0 == s);
                assert(kk == k);
            }
            let (key, mut cs) = groups.remove(k);
            cs.push(c);
            groups.insert(k, (key, cs));
            proof {
                assert(groups_view(groups@) =~= g.update(k as int, (s, g[k as int].1.push(c))));
            }
            return;
        }
        k = k + 1;
    }
    let mut cs: Vec<usize> = Vec::new();
    cs.push(c);
    groups.push((s, cs));
    proof {
        assert(!(exists|kk: int| 0 <= kk < g.len() && g[kk].0 == s)) by {
            if exists|kk: int| 0 <= kk < g.len() && g[kk].0 == s {
                let kk = choose|kk: int| 0 <= kk < g.len() && g[kk].0 == s;
                assert(groups@[kk].0 == s);
            }
        }
        assert(cs@ =~= seq![c]);
        assert(groups_view(groups@) =~= g.push((s, seq![c])));
    }
}

/// The signals of a module: for every signal number its cells are connected to (in order of
/// first appearance), the connected cells in order of appearance, and how many of them are
/// mobile. `locked` tells, for each cell, whether it is position-locked.
#[verifier::rlimit(60)]
pub fn collect_signals(cells: &Vec<(String, Cell)>, locked: &Vec<bool>) -> (r: Vec<Signal>)
    requires
        locked@.len() == cells@.len(),
    ensures
        ({
            let g = group_connections(cell_connections(cells@));
            &&& r@.len() == g.len()
            &&& forall|k: int| 0 <= k < g.len() ==> (#[trigger] r@[k]).connected_cells@ == g[k].1
                && r@[k].moveable_cells == mobile_count(g[k].1, locked@)
        }),
{
    let mut groups: Vec<(i64, Vec<usize>)> = Vec::new();
    let ghost mut done: Seq<(usize, i64)> = seq![];
    let n = cells.len();
    let mut ci: usize = 0;
    while ci < n
        invariant
            n == cells@.len(),
            ci <= n,
            done == cell_connections(cells@.take(ci as int)),
            groups_view(groups@) == group_connections(done),
            distinct_keys(groups_view(groups@)),
            forall|j: int| 0 <= j < done.len() ==> (#[trigger] done[j]).0 < ci,
        decreases n - ci,
    {
        let conns = &cells[ci].1.connections;
        let ghost start = done;
        let np = conns.len();
        let mut pi: usize = 0;
        proof {
            assert(conns@.take(0) =~= Seq::<(String, Vec<ConstOrSignal>)>::empty());
            assert(port_signals(conns@.take(0)).map_values(|s: i64| (ci, s)) =~= Seq::<(usize, i64)>::empty());
        }
        while pi < np
            invariant
                n == cells@.len(),
                ci < n,
                conns@ == cells@[ci as int].1.connections@,
                np == conns@.len(),
                pi <= np,
                start == cell_connections(cells@.take(ci as int)),
                done == start + port_signals(conns@.take(pi as int)).map_values(|s: i64| (ci, s)),
                groups_view(groups@) == group_connections(done),
                distinct_keys(groups_view(groups@)),
                forall|j: int| 0 <= j < done.len() ==> (#[trigger] done[j]).0 <= ci,
            decreases np - pi,
        {
            let bits = &conns[pi].1;
            let ghost mid = done;
            let nb = bits.len();
            let mut bi: usize = 0;
            proof {
                assert(bits@.take(0) =~= Seq::<ConstOrSignal>::empty());
                assert(mid + bit_signals(bits@.take(0)).map_values(|s: i64| (ci, s)) =~= mid);
            }
            while bi < nb
                invariant
                    nb == bits@.len(),
                    bi <= nb,
                    done == mid + bit_signals(bits@.take(bi as int)).map_values(|s: i64| (ci, s)),
                    groups_view(groups@) == group_connections(done),
                    distinct_keys(groups_view(groups@)),
                    forall|j: int| 0 <= j < mid.len() ==> (#[trigger] mid[j]).0 <= ci,
                    forall|j: int| 0 <= j < done.len() ==> (#[trigger] done[j]).0 <= ci,
                decreases nb - bi,
            {
                proof {
                    assert(bits@.take(bi + 1).drop_last() =~= bits@.take(bi as int));
                    assert(bits@.take(bi + 1).last() == bits@[bi as int]);
                }
                match &bits[bi] {
                    ConstOrSignal::Signal(sig) => {
                        add_connection(&mut groups, *sig, ci);
                        proof {
                            let next = done.push((ci, *sig));
                            assert(next.drop_last() =~= done);
                            assert(next =~= mid + bit_signals(bits@.take(bi + 1)).map_values(|s: i64| (ci, s)));
                            done = next;
                        }
                    },
                    ConstOrSignal::Const(_) => {
                        proof {
                            assert(done =~= mid + bit_signals(bits@.take(bi + 1)).map_values(|s: i64| (ci, s)));
                        }
                    },
                }
                bi = bi + 1;
            }
            proof {
                assert(bits@.take(nb as int) =~= bits@);
                assert(conns@.take(pi + 1).drop_last() =~= conns@.take(pi as int));
                assert(done =~= start + port_signals(conns@.take(pi + 1)).map_values(|s: i64| (ci, s)));
            }
            pi = pi + 1;
        }
        proof {
            assert(conns@.take(np as int) =~= conns@);
            assert(cells@.take(ci + 1).drop_last() =~= cells@.take(ci as int));
            assert(done =~= cell_connections(cells@.take(ci + 1)));
        }
        ci = ci + 1;
    }
    proof {
        assert(cells@.take(n as int) =~= cells@);
        lemma_group_bounds(done, n as int);
    }
    let ghost g = groups_view(groups@);
    let mut r: Vec<Signal> = Vec::new();
    let ng = groups.len();
    let mut k: usize = 0;
    while k < ng
        invariant
            ng == g.len(),
            k <= ng,
            groups_view(groups@) == g.subrange(k as int, ng as int),
            r@.len() == k,
            locked@.len() == n,
            forall|j: int| 0 <= j < g.len() ==> forall|t: int| 0 <= t < (#[trigger] g[j]).1.len() ==> g[j].1[t] < n,
            forall|j: int| 0 <= j < k ==> (#[trigger] r@[j]).connected_cells@ == g[j].1
                && r@[j].moveable_cells == mobile_count(g[j].1, locked@),
        decreases ng - k,
    {
        let ghost before = groups@;
        proof {
            assert(groups_view(groups@).len() == groups@.len());
            assert(groups@.len() == ng - k);
        }
        let (_, cs) = groups.remove(0);
        proof {
            assert(groups_view(before)[0] == g.subrange(k as int, ng as int)[0]);
            assert(cs@ == g[k as int].1);
            assert(groups@ =~= before.subrange(1, before.len() as int));
            assert forall|i: int| 0 <= i < groups@.len() implies #[trigger] groups_view(groups@)[i] == g.subrange(k + 1, ng as int)[i] by {
                assert(groups@[i] == before[i + 1]);
                assert(groups_view(before)[i + 1] == g.subrange(k as int, ng as int)[i + 1]);
            }
            assert(groups_view(groups@) =~= g.subrange(k + 1, ng as int));
        }
        let mut mobile: usize = 0;
        let mut t: usize = 0;
        while t < cs.len()
            invariant
                t <= cs@.len(),
                cs@ == g[k as int].1,
                locked@.len() == n,
                forall|u: int| 0 <= u < cs@.len() ==> cs@[u] < n,
                mobile == mobile_count(cs@.take(t as int), locked@),
                mobile <= t,
            decreases cs@.len() - t,
        {
            proof {
                assert(cs@.take(t + 1).drop_last() =~= cs@.take(t as int));
            }
            if !locked[cs[t]] {
                mobile = mobile + 1;
            }
            t = t + 1;
        }
        proof {
            assert(cs@.take(cs@.len() as int) =~= cs@);
        }
        r.push(Signal { connected_cells: cs, moveable_cells: mobile });
        k = k + 1;
    }
    r
}

/// The metadata a placed cell carries over from the synthesized cell.
pub struct CellMetadata {
    /// Map from attribute name to value.
    pub attributes: Vec<(String, Parameter)>,
    /// Map from port name to its bits.
    pub connection: Vec<(String, BitVector)>,
    /// Map from parameter name to parameter value.
    pub parameter: Vec<(String, Parameter)>,
    /// Type of this cell (either a built-in magic cell, or the name of an NBT file).
    pub ty: String,
}

/// `p` is the string value `s`.
pub open spec fn is_str_param(p: Parameter, s: Seq<char>) -> bool {
    p.value matches Some(ParameterValue::Str(v)) && v@ == s
}

/// `r` holds the entries of `ps`, each value as a string parameter.
pub open spec fn string_params_of(r: Seq<(String, Parameter)>, ps: Seq<(String, String)>) -> bool {
    &&& r.len() == ps.len()
    &&& forall|i: int| 0 <= i < ps.len() ==> (#[trigger] r[i]).0@ == ps[i].0@ && is_str_param(r[i].1, ps[i].1@)
}

/// `r` holds the placed-design reading of the bits `bits`.
pub open spec fn bits_of(r: BitVector, bits: Seq<ConstOrSignal>) -> bool {
    &&& r.signal@.len() == bits.len()
    &&& forall|i: int| 0 <= i < bits.len() ==> (#[trigger] r.signal@[i]) == (DesignSignal { ty: Some(crate::yosys::spec_to_type(bits[i])) })
}

fn string_params(ps: &Vec<(String, String)>) -> (r: Vec<(String, Parameter)>)
    ensures
        string_params_of(r@, ps@),
{
    let mut r: Vec<(String, Parameter)> = Vec::new();
    let mut i: usize = 0;
    while i < ps.len()
        invariant
            i <= ps@.len(),
            r@.len() == i,
            forall|j: int| 0 <= j < i ==> (#[trigger] r@[j]).0@ == ps@[j].0@ && is_str_param(r@[j].1, ps@[j].1@),
        decreases ps@.len() - i,
    {
        let k = ps[i].0.clone();
        let v = ps[i].1.clone();
        r.push((k, Parameter { value: Some(ParameterValue::Str(v)) }));
        i = i + 1;
    }
    r
}

fn bit_vector(bits: &Vec<ConstOrSignal>) -> (r: BitVector)
    ensures
        bits_of(r, bits@),
{
    let mut signal: Vec<DesignSignal> = Vec::new();
    let mut i: usize = 0;
    while i < bits.len()
        invariant
            i <= bits@.len(),
            signal@.len() == i,
            forall|j: int| 0 <= j < i ==> (#[trigger] signal@[j]) == (DesignSignal { ty: Some(crate::yosys::spec_to_type(bits@[j])) }),
        decreases bits@.len() - i,
    {
        signal.push(DesignSignal { ty: Some(bits[i].to_type()) });
        i = i + 1;
    }
    BitVector { signal }
}

/// `r` is the metadata of synthesized cell `cell`: its type, its attributes and parameters as
/// string values, and each port's bits in placed-design form.
pub open spec fn metadata_of(r: CellMetadata, cell: Cell) -> bool {
    &&& r.ty@ == cell.ty@
    &&& string_params_of(r.attributes@, cell.attributes@)
    &&& string_params_of(r.parameter@, cell.parameters@)
    &&& r.connection@.len() == cell.connections@.len()
    &&& forall|i: int| 0 <= i < cell.connections@.len() ==> (#[trigger] r.connection@[i]).0@ == cell.connections@[i].0@
        && bits_of(r.connection@[i].1, cell.connections@[i].1@)
}

/// The metadata of a synthesized cell: its attributes and parameters as string values, and
/// each port's bits in placed-design form.
pub fn cell_metadata(cell: &Cell) -> (r: CellMetadata)
    ensures
        metadata_of(r, *cell),
{
    let mut connection: Vec<(String, BitVector)> = Vec::new();
    let mut i: usize = 0;
    while i < cell.connections.len()
        invariant
            i <= cell.connections@.len(),
            connection@.len() == i,
            forall|j: int| 0 <= j < i ==> (#[trigger] connection@[j]).0@ == cell.connections@[j].0@
                && bits_of(connection@[j].1, cell.connections@[j].1@),
        decreases cell.connections@.len() - i,
    {
        let name = cell.connections[i].0.clone();
        let bits = bit_vector(&cell.connections[i].1);
        connection.push((name, bits));
        i = i + 1;
    }
    CellMetadata {
        attributes: string_params(&cell.attributes),
        connection,
        parameter: string_params(&cell.parameters),
        ty: cell.ty.clone(),
    }
}

/// The metadata of a named net: hidden when its `hide_name` is non-zero, its bits in
/// placed-design form, its attributes as string values.
pub fn net_metadata(net: &NetName) -> (r: NetMetadata)
    ensures
        r.hide_name == (net.hide_name != 0),
        r.bits matches Some(b) && bits_of(b, net.bits@),
        string_params_of(r.attributes@, net.attributes@),
{
    NetMetadata {
        hide_name: net.hide_name != 0,
        bits: Some(bit_vector(&net.bits)),
        attributes: string_params(&net.attributes),
    }
}


/// The block position of a legalized cell: its tier turned into blocks.
pub open spec fn placed_position(c: LegalizedCell) -> Position {
    Position { x: c.x, y: (c.tier_y * BLOCKS_PER_TIER) as u32, z: c.z }
}

/// `c` is the placed cell for legalized cell `l` carrying metadata `m`.
pub open spec fn placed_from(c: DesignCell, l: LegalizedCell, m: CellMetadata) -> bool {
    &&& c.pos == Some(placed_position(l))
    &&& c.ty == m.ty
    &&& c.parameter == m.parameter
    &&& c.attribute == m.attributes
    &&& c.connection == m.connection
}

/// The placed design: each legalized cell, paired in order with its metadata, at its block
/// position, and the named nets as they are.
pub fn build_output(legalized_cells: Vec<LegalizedCell>, metadata: Vec<CellMetadata>, nets: Vec<(String, NetMetadata)>, creator: String) -> (r: PlacedDesign)
    requires
        forall|i: int| 0 <= i < legalized_cells@.len() ==> (#[trigger] legalized_cells@[i]).tier_y * BLOCKS_PER_TIER <= u32::MAX,
    ensures
        r.creator == creator,
        r.nets == nets,
        r.cells@.len() == if legalized_cells@.len() < metadata@.len() { legalized_cells@.len() } else { metadata@.len() },
        forall|i: int| 0 <= i < r.cells@.len() ==> placed_from(#[trigger] r.cells@[i], legalized_cells@[i], metadata@[i]),
{
    let ghost ms = metadata@;
    let mut rest = metadata;
    let n = if legalized_cells.len() < rest.len() { legalized_cells.len() } else { rest.len() };
    let mut cells: Vec<DesignCell> = Vec::new();
    let mut i: usize = 0;
    proof {
        assert(ms.subrange(0, ms.len() as int) =~= ms);
    }
    while i < n
        invariant
            n <= legalized_cells@.len(),
            n <= ms.len(),
            forall|j: int| 0 <= j < legalized_cells@.len() ==> (#[trigger] legalized_cells@[j]).tier_y * BLOCKS_PER_TIER <= u32::MAX,
            i <= n,
            rest@ == ms.subrange(i as int, ms.len() as int),
            cells@.len() == i,
            forall|j: int| 0 <= j < i ==> placed_from(#[trigger] cells@[j], legalized_cells@[j], ms[j]),
        decreases n - i,
    {
        let m = rest.remove(0);
        proof {
            assert(rest@ =~= ms.subrange(i + 1, ms.len() as int));
        }
        let l = legalized_cells[i];
        cells.push(DesignCell {
            pos: Some(Position { x: l.x, y: l.tier_y * BLOCKS_PER_TIER, z: l.z }),
            ty: m.ty,
            parameter: m.parameter,
            attribute: m.attributes,
            connection: m.connection,
        });
        i = i + 1;
    }
    PlacedDesign { creator, nets, cells }
}


/// The parts of a module's placement hypergraph, from the module's cells and the placement cell
/// built for each (`cells`, with `locked` telling which are position-locked): the cells and
/// their metadata with the locked cells moved last, the locked flags, the number of mobile
/// cells, and the module's signals referring to the cells' new places.
///
/// There must be at least one locked and one mobile cell.
pub fn assemble_hypergraph<C>(module_cells: &Vec<(String, Cell)>, cells: Vec<C>, locked: Vec<bool>)
    -> (r: (Vec<C>, Vec<CellMetadata>, Vec<bool>, usize, Vec<Signal>))
    requires
        cells@.len() == module_cells@.len(),
        locked@.len() == module_cells@.len(),
        exists|i: int| 0 <= i < locked@.len() && locked@[i],
        exists|i: int| 0 <= i < locked@.len() && !locked@[i],
    ensures
        ({
            let (c2, m2, l2, mobile, sig) = r;
            let g = group_connections(cell_connections(module_cells@));
            &&& mobile <= l2@.len()
            &&& c2@.len() == module_cells@.len() && m2@.len() == module_cells@.len()
            &&& forall|i: int| 0 <= i < l2@.len() ==> #[trigger] l2@[i] == (i >= mobile)
            &&& sig@.len() == g.len()
            &&& forall|k: int| 0 <= k < sig@.len() ==> (#[trigger] sig@[k]).moveable_cells == mobile_count(sig@[k].connected_cells@, l2@)
            &&& exists|p: Seq<int>| {
                &&& #[trigger] is_permutation(p, module_cells@.len() as int)
                &&& moved_by(cells@, c2@, p)
                &&& moved_by(locked@, l2@, p)
                &&& forall|j: int| 0 <= j < module_cells@.len() ==> metadata_of(m2@[#[trigger] p[j]], module_cells@[j].1)
                &&& forall|k: int| 0 <= k < g.len() ==> (#[trigger] sig@[k]).connected_cells@.len() == g[k].1.len()
                    && forall|c: int| 0 <= c < g[k].1.len() ==> sig@[k].connected_cells@[c] == p[g[k].1[c] as int]
            }
        }),
{
    let mut cells = cells;
    let mut locked = locked;
    let mut metadata: Vec<CellMetadata> = Vec::new();
    let mut i: usize = 0;
    while i < module_cells.len()
        invariant
            i <= module_cells@.len(),
            metadata@.len() == i,
            forall|j: int| 0 <= j < i ==> metadata_of(#[trigger] metadata@[j], module_cells@[j].1),
        decreases module_cells@.len() - i,
    {
        metadata.push(cell_metadata(&module_cells[i].1));
        i = i + 1;
    }
    let ghost m0 = metadata@;
    let ghost l0 = locked@;
    let ghost c0 = cells@;
    let ghost n = module_cells@.len();
    let mut signals = collect_signals(module_cells, &locked);
    let ghost s0 = signals@;
    let ghost g = group_connections(cell_connections(module_cells@));
    proof {
        lemma_connections_bounded(module_cells@);
        lemma_group_bounds(cell_connections(module_cells@), n as int);
        assert forall|k: int, c: int| 0 <= k < s0.len() && 0 <= c < s0[k].connected_cells@.len()
            implies (#[trigger] s0[k].connected_cells@[c]) < n by {
            assert(s0[k].connected_cells@ == g[k].1);
        }
    }
    let mobile = partition_locked_last(&mut cells, &mut metadata, &mut locked, &mut signals);
    proof {
        let p = choose|p: Seq<int>| {
            &&& #[trigger] is_permutation(p, l0.len() as int)
            &&& moved_by(c0, cells@, p)
            &&& moved_by(m0, metadata@, p)
            &&& moved_by(l0, locked@, p)
            &&& signals_moved_by(s0, signals@, p)
        };
        lemma_partition_keeps_mobile_counts(l0, locked@, s0, signals@, p);
        assert forall|j: int| 0 <= j < n implies metadata_of(metadata@[#[trigger] p[j]], module_cells@[j].1) by {
            assert(metadata@[p[j]] == m0[j]);
        }
        assert forall|k: int| 0 <= k < g.len() implies (#[trigger] signals@[k]).connected_cells@.len() == g[k].1.len()
            && forall|c: int| 0 <= c < g[k].1.len() ==> signals@[k].connected_cells@[c] == p[g[k].1[c] as int] by {
            assert(s0[k].connected_cells@ == g[k].1);
        }
    }
    (cells, metadata, locked, mobile, signals)
}

} // verus!
