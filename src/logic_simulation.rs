use vstd::prelude::*;

use crate::gates::{Gate, GateKind};

verus! {

/// A directed wire `(source gate, source output, destination gate, destination input)`.
pub type Connection = (usize, usize, usize, usize);

/// Errors reported by the simulator.
#[derive(Clone, Copy, Debug, PartialEq, Eq, Structural)]
pub enum SimError {
    /// No live gate has the given id.
    UnknownGate,
    /// A connection endpoint names a missing gate or an out-of-range port.
    InvalidReference,
}

/// Abstract state of one live gate instance.
pub struct GateNode {
    pub kind: GateKind,
    pub inputs: Seq<bool>,
    pub outputs: Seq<bool>,
}

/// Abstract state of the whole network.
pub struct SimView {
    /// The id that the next added gate receives.
    pub counter: nat,
    pub gates: Map<usize, GateNode>,
    pub connections: Seq<Connection>,
}

impl GateNode {
    /// A newly added instance: every input and output is false.
    pub open spec fn fresh(kind: GateKind) -> GateNode {
        GateNode {
            kind,
            inputs: Seq::new(kind.input_count(), |i: int| false),
            outputs: Seq::new(kind.output_count(), |i: int| false),
        }
    }

    /// The signal vectors have the lengths that the definition declares.
    pub open spec fn shaped(self) -> bool {
        &&& self.inputs.len() == self.kind.input_count()
        &&& self.outputs.len() == self.kind.output_count()
    }
}

impl SimView {
    /// A network with no gates, no connections, and the counter at zero.
    pub open spec fn empty() -> SimView {
        SimView { counter: 0, gates: Map::empty(), connections: Seq::empty() }
    }

    /// Both endpoints name live gates and ports within their bounds.
    pub open spec fn connection_valid(self, c: Connection) -> bool {
        &&& self.gates.contains_key(c.0)
        &&& c.1 < self.gates[c.0].kind.output_count()
        &&& self.gates.contains_key(c.2)
        &&& c.3 < self.gates[c.2].kind.input_count()
    }

    /// Structural invariant of the network.
    pub open spec fn valid(self) -> bool {
        &&& forall|id: usize| #[trigger]
            self.gates.contains_key(id) ==> id < self.counter && self.gates[id].shaped()
        &&& forall|k: int|
            0 <= k < self.connections.len() ==> self.connection_valid(#[trigger] self.connections[k])
    }

    /// The network after adding a gate of `kind`: it receives id `counter`.
    pub open spec fn gate_added(self, kind: GateKind) -> SimView {
        SimView {
            counter: self.counter + 1,
            gates: self.gates.insert(self.counter as usize, GateNode::fresh(kind)),
            connections: self.connections,
        }
    }

    /// Holds of the connections that neither start nor end at gate `id`.
    pub open spec fn clear_of(id: usize) -> spec_fn(Connection) -> bool {
        |c: Connection| c.0 != id && c.2 != id
    }

    /// Holds of the connections other than `c`.
    pub open spec fn other_than(c: Connection) -> spec_fn(Connection) -> bool {
        |d: Connection| d != c
    }

    /// The network after removing gate `id` and every connection touching it.
    pub open spec fn gate_removed(self, id: usize) -> SimView {
        SimView {
            counter: self.counter,
            gates: self.gates.remove(id),
            connections: self.connections.filter(SimView::clear_of(id)),
        }
    }

    /// The network after appending connection `c`.
    pub open spec fn connection_added(self, c: Connection) -> SimView {
        SimView { connections: self.connections.push(c), ..self }
    }

    /// The network after removing every copy of connection `c`.
    pub open spec fn connection_removed(self, c: Connection) -> SimView {
        SimView { connections: self.connections.filter(SimView::other_than(c)), ..self }
    }

    /// Input `i` of gate `id` receives true from at least one of the first `upto` connections.
    pub open spec fn driven_by(self, upto: int, id: usize, i: int) -> bool {
        exists|k: int|
            0 <= k < upto && #[trigger] self.connections[k].2 == id && self.connections[k].3 == i
                && self.gates[self.connections[k].0].outputs[self.connections[k].1 as int]
    }

    /// Input `i` of gate `id` after propagation: true iff some wire into it carries true.
    pub open spec fn driven(self, id: usize, i: int) -> bool {
        self.driven_by(self.connections.len() as int, id, i)
    }

    /// Inputs of gate `id` after propagation.
    pub open spec fn next_inputs(self, id: usize) -> Seq<bool> {
        Seq::new(self.gates[id].kind.input_count(), |i: int| self.driven(id, i))
    }

    /// Gate `id` after propagation and evaluation.
    pub open spec fn next_node(self, id: usize) -> GateNode {
        GateNode {
            kind: self.gates[id].kind,
            inputs: self.next_inputs(id),
            outputs: self.gates[id].kind.eval(self.next_inputs(id)),
        }
    }

    /// One discrete step: propagate along every wire, then evaluate every gate once.
    pub open spec fn ticked(self) -> SimView {
        SimView {
            gates: Map::new(|id: usize| self.gates.contains_key(id), |id: usize| self.next_node(id)),
            ..self
        }
    }
}

/// Removing a gate keeps the network structurally valid.
pub proof fn lemma_gate_removed_valid(v: SimView, id: usize)
    requires
        v.valid(),
    ensures
        v.gate_removed(id).valid(),
{
    let w = v.gate_removed(id);
    let pred = SimView::clear_of(id);
    assert forall|k: int| 0 <= k < w.connections.len() implies w.connection_valid(
        #[trigger] w.connections[k],
    ) by {
        let c = w.connections[k];
        assert(w.connections.contains(c));
        v.connections.lemma_filter_contains_rev(pred, c);
        v.connections.lemma_filter_pred(pred, k);
    }
}

struct GateState {
    id: usize,
    kind: GateKind,
    inputs: Vec<bool>,
    outputs: Vec<bool>,
}

impl GateState {
    spec fn node(self) -> GateNode {
        GateNode { kind: self.kind, inputs: self.inputs@, outputs: self.outputs@ }
    }

    /// Recomputes the outputs from the current inputs.
    fn update(&mut self)
        requires
            old(self).inputs@.len() == old(self).kind.input_count(),
        ensures
            final(self).id == old(self).id,
            final(self).kind == old(self).kind,
            final(self).inputs@ == old(self).inputs@,
            final(self).outputs@ == old(self).kind.eval(old(self).inputs@),
    {
        self.outputs = self.kind.evaluate(self.inputs.as_slice());
    }
}

proof fn lemma_driven_step(v: SimView, j: int, id: usize, i: int)
    requires
        0 <= j < v.connections.len(),
    ensures
        v.driven_by(j + 1, id, i) == (v.driven_by(j, id, i) || (v.connections[j].2 == id
            && v.connections[j].3 == i
            && v.gates[v.connections[j].0].outputs[v.connections[j].1 as int])),
{
    if v.driven_by(j + 1, id, i) && !v.driven_by(j, id, i) {
        let k = choose|k: int|
            0 <= k < j + 1 && #[trigger] v.connections[k].2 == id && v.connections[k].3 == i
                && v.gates[v.connections[k].0].outputs[v.connections[k].1 as int];
        assert(k == j);
    }
    // witness for the new connection
    if v.connections[j].2 == id {
        assert(v.connections[j].2 == id);
    }
}

/// A network of gate instances joined by directed wires.
pub struct LogicSimulation {
    counter: usize,
    gates: Vec<GateState>,
    connections: Vec<Connection>,
}

spec fn has_slot(gates: Seq<GateState>, id: usize) -> bool {
    exists|k: int| 0 <= k < gates.len() && (#[trigger] gates[k]).id == id
}

spec fn slot(gates: Seq<GateState>, id: usize) -> int {
    choose|k: int| 0 <= k < gates.len() && (#[trigger] gates[k]).id == id
}

spec fn ids_increasing(gates: Seq<GateState>) -> bool {
    forall|a: int, b: int| 0 <= a < b < gates.len() ==> gates[a].id < gates[b].id
}

proof fn lemma_slot(gates: Seq<GateState>, k: int)
    requires
        ids_increasing(gates),
        0 <= k < gates.len(),
    ensures
        has_slot(gates, gates[k].id),
        slot(gates, gates[k].id) == k,
{
    let j = slot(gates, gates[k].id);
    assert(gates[k].id == gates[k].id);
    if j < k {
        assert(gates[j].id < gates[k].id);
    } else if j > k {
        assert(gates[k].id < gates[j].id);
    }
}

proof fn lemma_slots(gates: Seq<GateState>)
    requires
        ids_increasing(gates),
    ensures
        forall|k: int|
            0 <= k < gates.len() ==> has_slot(gates, #[trigger] gates[k].id) && slot(gates, gates[k].id)
                == k,
        forall|id: usize| #[trigger]
            has_slot(gates, id) ==> 0 <= slot(gates, id) < gates.len() && gates[slot(gates, id)].id
                == id,
{
    assert forall|k: int| 0 <= k < gates.len() implies has_slot(gates, #[trigger] gates[k].id)
        && slot(gates, gates[k].id) == k by {
        lemma_slot(gates, k);
    }
}

/// A vector of `n` false signals.
fn all_false(n: usize) -> (r: Vec<bool>)
    ensures
        r@ == Seq::new(n as nat, |i: int| false),
{
    let mut r: Vec<bool> = Vec::new();
    let mut k: usize = 0;
    while k < n
        invariant
            k <= n,
            r@ == Seq::new(k as nat, |i: int| false),
        decreases n - k,
    {
        r.push(false);
        k += 1;
        assert(r@ =~= Seq::new(k as nat, |i: int| false));
    }
    r
}

/// The connections of `conns` that do not touch gate `id`.
fn without_gate(conns: &Vec<Connection>, id: usize) -> (r: Vec<Connection>)
    ensures
        r@ == conns@.filter(SimView::clear_of(id)),
{
    let mut r: Vec<Connection> = Vec::new();
    let mut k: usize = 0;
    while k < conns.len()
        invariant
            k <= conns@.len(),
            r@ == conns@.subrange(0, k as int).filter(SimView::clear_of(id)),
        decreases conns@.len() - k,
    {
        let ghost r0 = r@;
        let c = conns[k];
        if c.0 != id && c.2 != id {
            r.push(c);
        }
        proof {
            let s = conns@.subrange(0, k + 1);
            assert(s.drop_last() =~= conns@.subrange(0, k as int));
            assert(s.last() == c);
            reveal(Seq::filter);
            assert(s.filter(SimView::clear_of(id)) == if SimView::clear_of(id)(c) {
                s.drop_last().filter(SimView::clear_of(id)).push(c)
            } else {
                s.drop_last().filter(SimView::clear_of(id))
            });
            assert(r0 == s.drop_last().filter(SimView::clear_of(id)));
            assert(SimView::clear_of(id)(c) == (c.0 != id && c.2 != id));
            assert(r@ == s.filter(SimView::clear_of(id)));
        }
        k += 1;
    }
    assert(conns@.subrange(0, conns@.len() as int) =~= conns@);
    r
}

/// The connections of `conns` other than `c`.
fn without_connection(conns: &Vec<Connection>, c: Connection) -> (r: Vec<Connection>)
    ensures
        r@ == conns@.filter(SimView::other_than(c)),
{
    let mut r: Vec<Connection> = Vec::new();
    let mut k: usize = 0;
    while k < conns.len()
        invariant
            k <= conns@.len(),
            r@ == conns@.subrange(0, k as int).filter(SimView::other_than(c)),
        decreases conns@.len() - k,
    {
        let ghost r0 = r@;
        let d = conns[k];
        if d.0 != c.0 || d.1 != c.1 || d.2 != c.2 || d.3 != c.3 {
            r.push(d);
        }
        proof {
            let s = conns@.subrange(0, k + 1);
            assert(s.drop_last() =~= conns@.subrange(0, k as int));
            assert(s.last() == d);
            reveal(Seq::filter);
            assert(s.filter(SimView::other_than(c)) == if SimView::other_than(c)(d) {
                s.drop_last().filter(SimView::other_than(c)).push(d)
            } else {
                s.drop_last().filter(SimView::other_than(c))
            });
            assert(r0 == s.drop_last().filter(SimView::other_than(c)));
            assert(SimView::other_than(c)(d) == (d.0 != c.0 || d.1 != c.1 || d.2 != c.2 || d.3 != c.3));
            assert(r@ == s.filter(SimView::other_than(c)));
        }
        k += 1;
    }
    assert(conns@.subrange(0, conns@.len() as int) =~= conns@);
    r
}

spec fn gate_map(gates: Seq<GateState>) -> Map<usize, GateNode> {
    Map::new(|id: usize| has_slot(gates, id), |id: usize| gates[slot(gates, id)].node())
}

proof fn lemma_arena_remove(og: Seq<GateState>, k: int)
    requires
        ids_increasing(og),
        0 <= k < og.len(),
    ensures
        ids_increasing(og.remove(k)),
        gate_map(og.remove(k)) == gate_map(og).remove(og[k].id),
{
    let ng = og.remove(k);
    let id = og[k].id;
    lemma_slots(og);
    assert(ids_increasing(ng)) by {
        assert forall|a: int, b: int| 0 <= a < b < ng.len() implies ng[a].id < ng[b].id by {
            if a < k && b >= k {
                assert(ng[b] == og[b + 1]);
            } else if a >= k {
                assert(ng[a] == og[a + 1] && ng[b] == og[b + 1]);
            }
        }
    }
    lemma_slots(ng);
    let expected = gate_map(og).remove(id);
    assert forall|x: usize| has_slot(ng, x) == expected.contains_key(x) by {
        if has_slot(ng, x) {
            let j = slot(ng, x);
            if j < k {
                assert(ng[j] == og[j]);
            } else {
                assert(ng[j] == og[j + 1]);
            }
        }
        if has_slot(og, x) && x != id {
            let j = slot(og, x);
            if j < k {
                assert(ng[j] == og[j]);
            } else {
                assert(ng[j - 1] == og[j]);
            }
        }
    }
    assert forall|x: usize| #[trigger] has_slot(ng, x) implies ng[slot(ng, x)].node()
        == expected[x] by {
        let j = slot(ng, x);
        if j < k {
            assert(ng[j] == og[j]);
            assert(slot(og, x) == j);
        } else {
            assert(ng[j] == og[j + 1]);
            assert(slot(og, x) == j + 1);
        }
    }
    assert(gate_map(ng) =~= expected);
}

fn find_in(gates: &Vec<GateState>, id: usize) -> (r: Option<usize>)
    requires
        ids_increasing(gates@),
    ensures
        r is None <==> !has_slot(gates@, id),
        r matches Some(k) ==> k < gates@.len() && gates@[k as int].id == id && slot(gates@, id) == k,
{
    let mut k: usize = 0;
    while k < gates.len()
        invariant
            ids_increasing(gates@),
            k <= gates@.len(),
            forall|j: int| 0 <= j < k ==> (#[trigger] gates@[j]).id != id,
        decreases gates@.len() - k,
    {
        if gates[k].id == id {
            proof {
                lemma_slot(gates@, k as int);
            }
            return Some(k);
        }
        k += 1;
    }
    None
}

impl View for LogicSimulation {
    type V = SimView;

    closed spec fn view(&self) -> SimView {
        SimView {
            counter: self.counter as nat,
            gates: gate_map(self.gates@),
            connections: self.connections@,
        }
    }
}

impl LogicSimulation {
    /// Well-formedness: the abstract invariant, plus the layout of the arena.
    pub open spec fn wf(&self) -> bool {
        self@.valid() && self.arena_ok()
    }

    pub closed spec fn arena_ok(&self) -> bool {
        ids_increasing(self.gates@)
    }

    pub fn new() -> (r: LogicSimulation)
        ensures
            r.wf(),
            r@ == SimView::empty(),
    {
        let r = LogicSimulation { counter: 0, gates: Vec::new(), connections: Vec::new() };
        assert(r@.gates =~= Map::<usize, GateNode>::empty());
        r
    }

    /// The id that the next added gate will receive.
    pub fn next_id(&self) -> (r: usize)
        ensures
            r == self@.counter,
    {
        self.counter
    }

    /// Arena index of the live gate with id `id`.
    fn find(&self, id: usize) -> (r: Option<usize>)
        requires
            self.wf(),
        ensures
            r is None <==> !self@.gates.contains_key(id),
            r matches Some(k) ==> k < self.gates@.len() && self.gates@[k as int].id == id
                && slot(self.gates@, id) == k,
    {
        find_in(&self.gates, id)
    }

    /// Adds a gate instance with all signals false and returns its id.
    pub fn add_gate<const INPUTS: usize, const OUTPUTS: usize, G: Gate<INPUTS, OUTPUTS>>(
        &mut self,
        gate: G,
    ) -> (id: usize)
        requires
            old(self).wf(),
            old(self)@.counter < usize::MAX,
        ensures
            final(self).wf(),
            id == old(self)@.counter,
            final(self)@ == old(self)@.gate_added(gate.definition()),
    {
        let kind = gate.kind();
        let inputs = all_false(kind.inputs());
        let outputs = all_false(kind.outputs());
        let id = self.counter;
        let state = GateState { id, kind, inputs, outputs };
        self.gates.push(state);
        self.counter += 1;
        proof {
            let og = old(self).gates@;
            let ng = self.gates@;
            let ov = old(self)@;
            lemma_slots(og);
            assert forall|k: int| 0 <= k < og.len() implies (#[trigger] og[k]).id < id by {
                assert(ov.gates.contains_key(og[k].id));
            }
            assert(ids_increasing(ng)) by {
                assert forall|a: int, b: int| 0 <= a < b < ng.len() implies ng[a].id < ng[b].id by {
                    if b == og.len() {
                        assert(og[a].id < id);
                    } else {
                        assert(ng[a] == og[a] && ng[b] == og[b]);
                    }
                }
            }
            lemma_slots(ng);
            let expected = ov.gate_added(kind);
            assert forall|x: usize| has_slot(ng, x) == expected.gates.contains_key(x) by {
                if has_slot(ng, x) {
                    let k = slot(ng, x);
                    if k < og.len() {
                        assert(ng[k] == og[k]);
                    }
                }
                if has_slot(og, x) {
                    let k = slot(og, x);
                    assert(ng[k] == og[k]);
                }
                if x == id {
                    assert(ng[og.len() as int].id == id);
                }
            }
            assert forall|x: usize| #[trigger] has_slot(ng, x) implies ng[slot(ng, x)].node()
                == expected.gates[x] by {
                let k = slot(ng, x);
                if k < og.len() {
                    assert(ng[k] == og[k]);
                    assert(slot(og, x) == k);
                } else {
                    assert(state.inputs@ =~= GateNode::fresh(kind).inputs);
                    assert(state.outputs@ =~= GateNode::fresh(kind).outputs);
                }
            }
            assert(self@.gates =~= expected.gates);
            assert(self@.connections == expected.connections);
        }
        id
    }

    /// Removes gate `id`, if it is live, and every connection that touches it.
    pub fn remove_gate(&mut self, id: usize)
        requires
            old(self).wf(),
        ensures
            final(self).wf(),
            final(self)@ == old(self)@.gate_removed(id),
    {
        let found = self.find(id);
        if let Some(k) = found {
            self.gates.remove(k);
        }
        let kept = without_gate(&self.connections, id);
        self.connections = kept;
        proof {
            if let Some(k) = found {
                lemma_arena_remove(old(self).gates@, k as int);
            }
            assert(self@.gates =~= old(self)@.gates.remove(id));
            lemma_gate_removed_valid(old(self)@, id);
            assert(self@ == old(self)@.gate_removed(id));
        }
    }

    /// The ids of all live gates, in increasing order.
    pub fn gate_ids(&self) -> (r: Vec<usize>)
        requires
            self.wf(),
        ensures
            forall|id: usize| r@.contains(id) <==> self@.gates.contains_key(id),
            forall|a: int, b: int| 0 <= a < b < r@.len() ==> r@[a] < r@[b],
    {
        let mut r: Vec<usize> = Vec::new();
        let mut k: usize = 0;
        proof {
            lemma_slots(self.gates@);
        }
        while k < self.gates.len()
            invariant
                self.wf(),
                k <= self.gates@.len(),
                r@.len() == k,
                forall|j: int| 0 <= j < k ==> r@[j] == (#[trigger] self.gates@[j]).id,
            decreases self.gates@.len() - k,
        {
            r.push(self.gates[k].id);
            k += 1;
        }
        proof {
            assert forall|id: usize| r@.contains(id) <==> self@.gates.contains_key(id) by {
                if r@.contains(id) {
                    let j = choose|j: int| 0 <= j < r@.len() && r@[j] == id;
                    assert(self.gates@[j].id == id);
                }
                if self@.gates.contains_key(id) {
                    assert(r@[slot(self.gates@, id)] == id);
                }
            }
            assert forall|a: int, b: int| 0 <= a < b < r@.len() implies r@[a] < r@[b] by {
                assert(r@[a] == self.gates@[a].id && r@[b] == self.gates@[b].id);
            }
        }
        r
    }

    /// Appends the wire `(from, output) -> (to, input)` once both endpoints are checked.
    pub fn add_connection(&mut self, from: usize, output: usize, to: usize, input: usize) -> (r:
        Result<(), SimError>)
        requires
            old(self).wf(),
        ensures
            final(self).wf(),
            r is Ok <==> old(self)@.connection_valid((from, output, to, input)),
            r is Ok ==> final(self)@ == old(self)@.connection_added((from, output, to, input)),
            r is Err ==> r == Err::<(), SimError>(SimError::InvalidReference) && final(self)@ == old(
                self,
            )@,
    {
        let source = self.find(from);
        let dest = self.find(to);
        match (source, dest) {
            (Some(a), Some(b)) => {
                if output < self.gates[a].kind.outputs() && input < self.gates[b].kind.inputs() {
                    self.connections.push((from, output, to, input));
                    proof {
                        let v = self@;
                        assert forall|k: int| 0 <= k < v.connections.len() implies v.connection_valid(
                            #[trigger] v.connections[k],
                        ) by {
                            if k < old(self)@.connections.len() {
                                assert(v.connections[k] == old(self)@.connections[k]);
                            }
                        }
                    }
                    Ok(())
                } else {
                    Err(SimError::InvalidReference)
                }
            },
            _ => Err(SimError::InvalidReference),
        }
    }

    /// Removes every connection equal to `(from, output) -> (to, input)`.
    pub fn remove_connection(&mut self, from: usize, output: usize, to: usize, input: usize)
        requires
            old(self).wf(),
        ensures
            final(self).wf(),
            final(self)@ == old(self)@.connection_removed((from, output, to, input)),
    {
        let c = (from, output, to, input);
        let kept = without_connection(&self.connections, c);
        self.connections = kept;
        proof {
            let v = old(self)@;
            let w = self@;
            let pred = SimView::other_than(c);
            assert forall|k: int| 0 <= k < w.connections.len() implies w.connection_valid(
                #[trigger] w.connections[k],
            ) by {
                let d = w.connections[k];
                assert(w.connections.contains(d));
                v.connections.lemma_filter_contains_rev(pred, d);
            }
        }
    }

    /// The input and output signals of gate `id`.
    pub fn get_gate_state(&self, id: usize) -> (r: Result<(&[bool], &[bool]), SimError>)
        requires
            self.wf(),
        ensures
            r is Ok <==> self@.gates.contains_key(id),
            r matches Ok((i, o)) ==> i@ == self@.gates[id].inputs && o@ == self@.gates[id].outputs,
            r matches Err(e) ==> e == SimError::UnknownGate,
    {
        match self.find(id) {
            Some(k) => {
                let gate = &self.gates[k];
                Ok((gate.inputs.as_slice(), gate.outputs.as_slice()))
            },
            None => Err(SimError::UnknownGate),
        }
    }

    /// The display name of gate `id`.
    pub fn get_gate_name(&self, id: usize) -> (r: Result<&'static str, SimError>)
        requires
            self.wf(),
        ensures
            r is Ok <==> self@.gates.contains_key(id),
            r matches Ok(n) ==> n@ == self@.gates[id].kind.display_name(),
            r matches Err(e) ==> e == SimError::UnknownGate,
    {
        match self.find(id) {
            Some(k) => Ok(self.gates[k].kind.name()),
            None => Err(SimError::UnknownGate),
        }
    }

    /// Advances the network by one step: every input is first cleared, then set to true by
    /// any connection whose source output is true, and only then is every gate evaluated.
    pub fn simulate(&mut self)
        requires
            old(self).wf(),
        ensures
            final(self).wf(),
            final(self)@ == old(self)@.ticked(),
    {
        let ghost og = self.gates@;
        let ghost ov = self@;
        let n = self.gates.len();
        proof {
            lemma_slots(og);
        }
        let mut k: usize = 0;
        while k < n
            invariant
                n == og.len(),
                ids_increasing(og),
                ov == old(self)@,
                ov.gates == gate_map(og),
                ov.valid(),
                self.connections@ == ov.connections,
                self.counter == ov.counter,
                self.gates@.len() == n,
                k <= n,
                forall|g: int|
                    0 <= g < n ==> (#[trigger] self.gates@[g]).id == og[g].id && self.gates@[g].kind
                        == og[g].kind && self.gates@[g].outputs@ == og[g].outputs@,
                forall|g: int|
                    0 <= g < k ==> (#[trigger] self.gates@[g]).inputs@ == Seq::new(
                        og[g].kind.input_count(),
                        |i: int| false,
                    ),
                forall|g: int| k <= g < n ==> #[trigger] self.gates@[g] == og[g],
            decreases n - k,
        {
            let len = self.gates[k].kind.inputs();
            self.gates[k].inputs = all_false(len);
            k += 1;
        }
        let m = self.connections.len();
        let mut j: usize = 0;
        while j < m
            invariant
                n == og.len(),
                ids_increasing(og),
                ov == old(self)@,
                ov.gates == gate_map(og),
                ov.valid(),
                self.connections@ == ov.connections,
                self.counter == ov.counter,
                m == ov.connections.len(),
                self.gates@.len() == n,
                j <= m,
                forall|g: int|
                    0 <= g < n ==> (#[trigger] self.gates@[g]).id == og[g].id && self.gates@[g].kind
                        == og[g].kind && self.gates@[g].outputs@ == og[g].outputs@
                        && self.gates@[g].inputs@.len() == og[g].kind.input_count(),
                forall|g: int, i: int|
                    0 <= g < n && 0 <= i < og[g].kind.input_count() ==> #[trigger] self.gates@[g].inputs@[i]
                        == ov.driven_by(j as int, og[g].id, i),
            decreases m - j,
        {
            let c = self.connections[j];
            proof {
                lemma_slots(og);
                assert(c == ov.connections[j as int]);
                assert(ov.connection_valid(c));
                assert(self.gates@[slot(og, c.0)].id == c.0);
                assert(self.gates@[slot(og, c.2)].id == c.2);
                assert(ids_increasing(self.gates@)) by {
                    assert forall|a: int, b: int| 0 <= a < b < self.gates@.len() implies self.gates@[a].id < self.gates@[b].id by {
                        assert(self.gates@[a].id == og[a].id && self.gates@[b].id == og[b].id);
                    }
                }
            }
            let a = find_in(&self.gates, c.0).unwrap();
            let b = find_in(&self.gates, c.2).unwrap();
            proof {
                lemma_slot(og, a as int);
                lemma_slot(og, b as int);
            }
            let value = self.gates[a].outputs[c.1];
            if !self.gates[b].inputs[c.3] {
                self.gates[b].inputs.set(c.3, value);
            }
            proof {
                assert forall|g: int, i: int|
                    0 <= g < n && 0 <= i < og[g].kind.input_count() implies #[trigger] self.gates@[g].inputs@[i]
                        == ov.driven_by(j + 1, og[g].id, i) by {
                    lemma_driven_step(ov, j as int, og[g].id, i);
                    if g != b {
                        assert(og[g].id != og[b as int].id);
                    }
                }
            }
            j += 1;
        }
        let mut k: usize = 0;
        while k < n
            invariant
                n == og.len(),
                ids_increasing(og),
                ov == old(self)@,
                ov.gates == gate_map(og),
                ov.valid(),
                self.connections@ == ov.connections,
                self.counter == ov.counter,
                self.gates@.len() == n,
                k <= n,
                forall|g: int|
                    0 <= g < n ==> (#[trigger] self.gates@[g]).id == og[g].id && self.gates@[g].kind
                        == og[g].kind && self.gates@[g].inputs@ == ov.next_inputs(og[g].id),
                forall|g: int| 0 <= g < k ==> (#[trigger] self.gates@[g]).outputs@ == og[g].kind.eval(ov.next_inputs(og[g].id)),
                forall|g: int| k <= g < n ==> (#[trigger] self.gates@[g]).outputs@ == og[g].outputs@,
            decreases n - k,
        {
            self.gates[k].update();
            k += 1;
        }
        proof {
            let ng = self.gates@;
            assert(ids_increasing(ng)) by {
                assert forall|a: int, b: int| 0 <= a < b < ng.len() implies ng[a].id < ng[b].id by {
                    assert(ng[a].id == og[a].id && ng[b].id == og[b].id);
                }
            }
            lemma_slots(og);
            lemma_slots(ng);
            let t = ov.ticked();
            assert forall|x: usize| has_slot(ng, x) == t.gates.contains_key(x) by {
                if has_slot(ng, x) {
                    assert(og[slot(ng, x)].id == x);
                }
                if has_slot(og, x) {
                    assert(ng[slot(og, x)].id == x);
                }
            }
            assert forall|x: usize| #[trigger] has_slot(ng, x) implies ng[slot(ng, x)].node() == t.gates[x] by {
                let g = slot(ng, x);
                assert(og[g].id == x);
                assert(slot(og, x) == g);
            }
            assert(self@.gates =~= t.gates);
            assert(self@ == t);
        }
    }
}

} // verus!