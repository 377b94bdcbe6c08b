use vstd::prelude::*;

use crate::gates::GateKind;
use crate::logic_simulation::{Connection, SimView};

verus! {

proof fn lemma_filter_idempotent(s: Seq<Connection>, p: spec_fn(Connection) -> bool)
    ensures
        s.filter(p).filter(p) == s.filter(p),
    decreases s.len(),
{
    reveal(Seq::filter);
    if s.len() > 0 {
        lemma_filter_idempotent(s.drop_last(), p);
        let sub = s.drop_last().filter(p);
        if p(s.last()) {
            let t = sub.push(s.last());
            assert(t.drop_last() =~= sub);
        }
    }
}

/// After a gate is removed it is no longer live, and no connection starts or ends at it.
pub proof fn lemma_removed_gate_leaves_no_trace(v: SimView, id: usize)
    ensures
        !v.gate_removed(id).gates.contains_key(id),
        forall|k: int|
            0 <= k < v.gate_removed(id).connections.len() ==> (#[trigger] v.gate_removed(
                id,
            ).connections[k]).0 != id && v.gate_removed(id).connections[k].2 != id,
{
    let w = v.gate_removed(id);
    assert forall|k: int| 0 <= k < w.connections.len() implies (#[trigger] w.connections[k]).0 != id
        && w.connections[k].2 != id by {
        v.connections.lemma_filter_pred(SimView::clear_of(id), k);
    }
}

/// Removing the same connection a second time changes nothing.
pub proof fn lemma_remove_connection_idempotent(v: SimView, c: Connection)
    ensures
        v.connection_removed(c).connection_removed(c) == v.connection_removed(c),
{
    lemma_filter_idempotent(v.connections, SimView::other_than(c));
}

/// Fan-in merges like OR: the order in which connections were declared does not matter, only
/// which connections exist.
pub proof fn lemma_fan_in_order_independent(v: SimView, w: SimView)
    requires
        v.gates == w.gates,
        forall|c: Connection| v.connections.contains(c) <==> w.connections.contains(c),
    ensures
        v.ticked().gates == w.ticked().gates,
{
    assert forall|id: usize, i: int| v.driven(id, i) == w.driven(id, i) by {
        if v.driven(id, i) {
            let k = choose|k: int|
                0 <= k < v.connections.len() && #[trigger] v.connections[k].2 == id
                    && v.connections[k].3 == i && v.gates[v.connections[k].0].outputs[v.connections[k].1 as int];
            assert(v.connections.contains(v.connections[k]));
            let c = v.connections[k];
            let j = choose|j: int| 0 <= j < w.connections.len() && w.connections[j] == c;
            assert(w.connections[j].2 == id);
        }
        if w.driven(id, i) {
            let k = choose|k: int|
                0 <= k < w.connections.len() && #[trigger] w.connections[k].2 == id
                    && w.connections[k].3 == i && w.gates[w.connections[k].0].outputs[w.connections[k].1 as int];
            assert(w.connections.contains(w.connections[k]));
            let c = w.connections[k];
            let j = choose|j: int| 0 <= j < v.connections.len() && v.connections[j] == c;
            assert(v.connections[j].2 == id);
        }
    }
    assert forall|id: usize| #[trigger] v.gates.contains_key(id) implies v.next_node(id)
        == w.next_node(id) by {
        assert(v.next_inputs(id) =~= w.next_inputs(id));
    }
    assert(v.ticked().gates =~= w.ticked().gates);
}

/// A destination input fed by at least one connection whose source output is true reads true
/// after a tick, whatever else feeds it.
pub proof fn lemma_fan_in_true_wins(v: SimView, k: int)
    requires
        v.valid(),
        0 <= k < v.connections.len(),
        v.gates[v.connections[k].0].outputs[v.connections[k].1 as int],
    ensures
        v.ticked().gates[v.connections[k].2].inputs[v.connections[k].3 as int],
{
    let c = v.connections[k];
    assert(v.connection_valid(c));
    assert(v.connections[k].2 == c.2);
    assert(v.driven(c.2, c.3 as int));
}

/// Ids are never reused: the id that the next gate receives is not live, adding a gate moves
/// the counter forward, and no other operation moves it at all.
pub proof fn lemma_ids_fresh_and_increasing(v: SimView, kind: GateKind, id: usize, c: Connection)
    requires
        v.valid(),
    ensures
        forall|x: usize| v.gates.contains_key(x) ==> x < v.counter,
        v.counter <= usize::MAX ==> !v.gates.contains_key(v.counter as usize),
        v.gate_added(kind).counter == v.counter + 1,
        v.gate_added(kind).gate_removed(id).gate_added(kind).counter > v.gate_added(kind).counter,
        v.gate_removed(id).counter == v.counter,
        v.connection_added(c).counter == v.counter,
        v.connection_removed(c).counter == v.counter,
        v.ticked().counter == v.counter,
{
}

/// The network after `t` ticks.
pub open spec fn after_ticks(v: SimView, t: nat) -> SimView
    decreases t,
{
    if t == 0 {
        v
    } else {
        after_ticks(v, (t - 1) as nat).ticked()
    }
}

/// Ticking never changes which gates exist, their kinds, or the wiring.
pub proof fn lemma_ticks_keep_shape(v: SimView, t: nat)
    ensures
        after_ticks(v, t).connections == v.connections,
        after_ticks(v, t).counter == v.counter,
        forall|id: usize| #[trigger]
            after_ticks(v, t).gates.contains_key(id) == v.gates.contains_key(id),
        forall|id: usize| #[trigger]
            v.gates.contains_key(id) ==> after_ticks(v, t).gates[id].kind == v.gates[id].kind,
    decreases t,
{
    if t > 0 {
        lemma_ticks_keep_shape(v, (t - 1) as nat);
    }
}

/// `c` is a series of YES buffers fed, at its head, by a NOT gate `s` that has no incoming
/// connection and already outputs true; every wire into a buffer comes from output 0 of the
/// previous stage, and every buffer has at least one; all buffers output false.
pub open spec fn driven_buffer_chain(v: SimView, s: usize, c: Seq<usize>) -> bool {
    &&& v.valid()
    &&& c.len() >= 1
    &&& v.gates.contains_key(s)
    &&& v.gates[s].kind == GateKind::Not
    &&& v.gates[s].outputs[0]
    &&& forall|k: int| 0 <= k < v.connections.len() ==> (#[trigger] v.connections[k]).2 != s
    &&& forall|a: int, b: int| 0 <= a < b < c.len() ==> c[a] != c[b]
    &&& forall|j: int|
        0 <= j < c.len() ==> {
            &&& v.gates.contains_key(#[trigger] c[j])
            &&& v.gates[c[j]].kind == GateKind::Yes
            &&& !v.gates[c[j]].outputs[0]
            &&& exists|k: int| 0 <= k < v.connections.len() && (#[trigger] v.connections[k]).2 == c[j]
        }
    &&& forall|k: int, j: int|
        0 <= k < v.connections.len() && 0 <= j < c.len() && (#[trigger] v.connections[k]).2
            == #[trigger] c[j] ==> v.connections[k].1 == 0 && v.connections[k].0 == if j == 0 {
            s
        } else {
            c[j - 1]
        }
}

proof fn lemma_chain_step(v: SimView, s: usize, c: Seq<usize>, t: nat)
    requires
        driven_buffer_chain(v, s, c),
    ensures
        after_ticks(v, t).gates[s].outputs[0],
        forall|j: int| 0 <= j < c.len() ==> after_ticks(v, t).gates[#[trigger] c[j]].outputs[0] == (j < t),
    decreases t,
{
    lemma_ticks_keep_shape(v, t);
    if t > 0 {
        let u = after_ticks(v, (t - 1) as nat);
        lemma_chain_step(v, s, c, (t - 1) as nat);
        lemma_ticks_keep_shape(v, (t - 1) as nat);
        assert(u.ticked() == after_ticks(v, t));
        assert(!u.driven(s, 0)) by {
            if u.driven(s, 0) {
                let k = choose|k: int|
                    0 <= k < u.connections.len() && #[trigger] u.connections[k].2 == s
                        && u.connections[k].3 == 0 && u.gates[u.connections[k].0].outputs[u.connections[k].1 as int];
                assert(v.connections[k].2 != s);
            }
        }
        assert(u.next_inputs(s)[0] == u.driven(s, 0));
        assert forall|j: int| 0 <= j < c.len() implies after_ticks(v, t).gates[#[trigger] c[j]].outputs[0]
            == (j < t) by {
            let g = c[j];
            let src = if j == 0 { s } else { c[j - 1] };
            assert(u.gates[src].outputs[0] == (j < t)) by {
                if j > 0 {
                    assert(u.gates[c[j - 1]].outputs[0] == (j - 1 < t - 1));
                }
            }
            assert(u.next_inputs(g)[0] == u.driven(g, 0));
            let k0 = choose|k: int| 0 <= k < v.connections.len() && (#[trigger] v.connections[k]).2 == g;
            if j < t {
                assert(v.connections[k0].0 == src && v.connections[k0].1 == 0);
                assert(v.connection_valid(v.connections[k0]));
                assert(u.connections[k0].2 == g);
                assert(u.driven(g, 0));
            } else {
                if u.driven(g, 0) {
                    let k = choose|k: int|
                        0 <= k < u.connections.len() && #[trigger] u.connections[k].2 == g
                            && u.connections[k].3 == 0 && u.gates[u.connections[k].0].outputs[u.connections[k].1 as int];
                    assert(v.connections[k].2 == c[j]);
                    assert(v.connections[k].0 == src);
                }
            }
        }
    }
}

/// Signals move one gate per tick: along a chain of `c.len()` buffers driven true at its head,
/// the tail output turns true after exactly `c.len()` ticks and not a tick earlier.
pub proof fn lemma_one_hop_per_tick(v: SimView, s: usize, c: Seq<usize>, t: nat)
    requires
        driven_buffer_chain(v, s, c),
    ensures
        after_ticks(v, t).gates[c.last()].outputs[0] == (t >= c.len()),
{
    lemma_chain_step(v, s, c, t);
    assert(after_ticks(v, t).gates[c[c.len() - 1]].outputs[0] == (c.len() - 1 < t));
}

} // verus!