use logic_sim::{And, Nand, Not, Or, Yes};
use logic_sim::{LogicSimulation, SimError};

fn inputs_of(sim: &LogicSimulation, id: usize) -> Vec<bool> {
    sim.get_gate_state(id).unwrap().0.to_vec()
}

fn outputs_of(sim: &LogicSimulation, id: usize) -> Vec<bool> {
    sim.get_gate_state(id).unwrap().1.to_vec()
}

#[test]
fn new_gate_starts_all_false() {
    let mut sim = LogicSimulation::new();
    let id = sim.add_gate(And);
    assert_eq!(id, 0);
    assert_eq!(inputs_of(&sim, id), vec![false, false]);
    assert_eq!(outputs_of(&sim, id), vec![false]);
    assert_eq!(sim.get_gate_name(id), Ok("AND"));
}

#[test]
fn unknown_gate_is_reported() {
    let sim = LogicSimulation::new();
    assert_eq!(sim.get_gate_state(3), Err(SimError::UnknownGate));
    assert_eq!(sim.get_gate_name(3), Err(SimError::UnknownGate));
}

#[test]
fn ids_increase_and_are_never_reused() {
    let mut sim = LogicSimulation::new();
    let a = sim.add_gate(And);
    let b = sim.add_gate(Not);
    sim.remove_gate(b);
    let c = sim.add_gate(Or);
    sim.remove_gate(a);
    sim.remove_gate(c);
    let d = sim.add_gate(Yes);
    assert_eq!((a, b, c, d), (0, 1, 2, 3));
    assert_eq!(sim.next_id(), 4);
    assert_eq!(sim.get_gate_name(d), Ok("YES"));
    assert_eq!(sim.get_gate_state(b), Err(SimError::UnknownGate));
}

#[test]
fn removing_a_gate_drops_its_connections() {
    let mut sim = LogicSimulation::new();
    let src = sim.add_gate(Not);
    let mid = sim.add_gate(Yes);
    let dst = sim.add_gate(Yes);
    assert_eq!(sim.add_connection(src, 0, mid, 0), Ok(()));
    assert_eq!(sim.add_connection(mid, 0, dst, 0), Ok(()));
    assert_eq!(sim.add_connection(src, 0, dst, 0), Ok(()));
    sim.remove_gate(mid);
    assert_eq!(sim.get_gate_state(mid), Err(SimError::UnknownGate));
    // a removed id stays unknown, so a new wire to it is refused
    assert_eq!(sim.add_connection(src, 0, mid, 0), Err(SimError::InvalidReference));
    // the remaining wire src -> dst still works
    sim.simulate();
    sim.simulate();
    assert_eq!(inputs_of(&sim, dst), vec![true]);
    assert_eq!(outputs_of(&sim, dst), vec![true]);
}

#[test]
fn removing_a_missing_gate_is_a_no_op() {
    let mut sim = LogicSimulation::new();
    let a = sim.add_gate(Not);
    sim.remove_gate(42);
    sim.simulate();
    assert_eq!(outputs_of(&sim, a), vec![true]);
    assert_eq!(sim.next_id(), 1);
}

#[test]
fn invalid_connections_are_refused() {
    let mut sim = LogicSimulation::new();
    let a = sim.add_gate(And);
    let b = sim.add_gate(Not);
    assert_eq!(sim.add_connection(a, 0, 7, 0), Err(SimError::InvalidReference));
    assert_eq!(sim.add_connection(7, 0, b, 0), Err(SimError::InvalidReference));
    assert_eq!(sim.add_connection(a, 1, b, 0), Err(SimError::InvalidReference));
    assert_eq!(sim.add_connection(a, 0, b, 1), Err(SimError::InvalidReference));
    assert_eq!(sim.add_connection(b, 0, a, 2), Err(SimError::InvalidReference));
    assert_eq!(sim.add_connection(b, 0, a, 1), Ok(()));
    assert_eq!(sim.add_connection(a, 0, b, 0), Ok(()));
}

#[test]
fn remove_connection_twice_equals_once() {
    let mut once = LogicSimulation::new();
    let mut twice = LogicSimulation::new();
    for sim in [&mut once, &mut twice] {
        let s = sim.add_gate(Not);
        let d = sim.add_gate(Yes);
        sim.add_connection(s, 0, d, 0).unwrap();
        sim.add_connection(s, 0, d, 0).unwrap();
    }
    once.remove_connection(0, 0, 1, 0);
    twice.remove_connection(0, 0, 1, 0);
    twice.remove_connection(0, 0, 1, 0);
    for sim in [&mut once, &mut twice] {
        sim.simulate();
        sim.simulate();
        assert_eq!(inputs_of(sim, 1), vec![false]);
        assert_eq!(outputs_of(sim, 1), vec![false]);
    }
}

#[test]
fn remove_connection_of_missing_wire_is_a_no_op() {
    let mut sim = LogicSimulation::new();
    let s = sim.add_gate(Not);
    let d = sim.add_gate(Yes);
    sim.add_connection(s, 0, d, 0).unwrap();
    sim.remove_connection(d, 0, s, 0);
    sim.simulate();
    sim.simulate();
    assert_eq!(outputs_of(&sim, d), vec![true]);
}

#[test]
fn one_hop_per_tick_along_buffers() {
    let mut sim = LogicSimulation::new();
    let source = sim.add_gate(Not);
    sim.simulate();
    assert_eq!(outputs_of(&sim, source), vec![true]);
    let n = 5;
    let mut chain = Vec::new();
    let mut prev = source;
    for _ in 0..n {
        let g = sim.add_gate(Yes);
        sim.add_connection(prev, 0, g, 0).unwrap();
        chain.push(g);
        prev = g;
    }
    let tail = *chain.last().unwrap();
    for t in 1..=n + 2 {
        sim.simulate();
        assert_eq!(outputs_of(&sim, tail), vec![t >= n], "after {} ticks", t);
        for (j, g) in chain.iter().enumerate() {
            assert_eq!(outputs_of(&sim, *g), vec![j < t]);
        }
    }
}

#[test]
fn one_hop_per_tick_along_inverters() {
    // a chain of three NOT gates behind an always-true source
    let mut sim = LogicSimulation::new();
    let source = sim.add_gate(Not);
    let a = sim.add_gate(Not);
    let b = sim.add_gate(Not);
    let c = sim.add_gate(Not);
    sim.add_connection(source, 0, a, 0).unwrap();
    sim.add_connection(a, 0, b, 0).unwrap();
    sim.add_connection(b, 0, c, 0).unwrap();
    let outs = |sim: &LogicSimulation| {
        [source, a, b, c].map(|g| outputs_of(sim, g)[0])
    };
    sim.simulate();
    assert_eq!(outs(&sim), [true, true, true, true]);
    sim.simulate();
    assert_eq!(outs(&sim), [true, false, false, false]);
    sim.simulate();
    assert_eq!(outs(&sim), [true, false, true, true]);
    sim.simulate();
    assert_eq!(outs(&sim), [true, false, true, false]);
    sim.simulate();
    assert_eq!(outs(&sim), [true, false, true, false]);
}

#[test]
fn fan_in_is_sticky_high_in_either_order() {
    for true_first in [true, false] {
        let mut sim = LogicSimulation::new();
        let high = sim.add_gate(Not); // outputs true after one tick
        let low = sim.add_gate(Yes); // never driven, stays false
        let dst = sim.add_gate(Yes);
        sim.simulate();
        assert_eq!(outputs_of(&sim, high), vec![true]);
        assert_eq!(outputs_of(&sim, low), vec![false]);
        if true_first {
            sim.add_connection(high, 0, dst, 0).unwrap();
            sim.add_connection(low, 0, dst, 0).unwrap();
        } else {
            sim.add_connection(low, 0, dst, 0).unwrap();
            sim.add_connection(high, 0, dst, 0).unwrap();
        }
        sim.simulate();
        assert_eq!(inputs_of(&sim, dst), vec![true]);
        assert_eq!(outputs_of(&sim, dst), vec![true]);
    }
}

#[test]
fn fan_in_of_false_sources_stays_false() {
    let mut sim = LogicSimulation::new();
    let a = sim.add_gate(Yes);
    let b = sim.add_gate(Yes);
    let dst = sim.add_gate(Not);
    sim.add_connection(a, 0, dst, 0).unwrap();
    sim.add_connection(b, 0, dst, 0).unwrap();
    sim.simulate();
    assert_eq!(inputs_of(&sim, dst), vec![false]);
    assert_eq!(outputs_of(&sim, dst), vec![true]);
}

#[test]
fn inputs_are_reset_every_tick() {
    let mut sim = LogicSimulation::new();
    let s = sim.add_gate(Not);
    let d = sim.add_gate(Yes);
    sim.add_connection(s, 0, d, 0).unwrap();
    sim.simulate();
    sim.simulate();
    assert_eq!(inputs_of(&sim, d), vec![true]);
    sim.remove_connection(s, 0, d, 0);
    sim.simulate();
    assert_eq!(inputs_of(&sim, d), vec![false]);
    assert_eq!(outputs_of(&sim, d), vec![false]);
}

#[test]
fn zero_ticks_leave_state_unchanged() {
    let mut sim = LogicSimulation::new();
    let g = sim.add_gate(Nand);
    assert_eq!(outputs_of(&sim, g), vec![false]);
    sim.simulate();
    assert_eq!(outputs_of(&sim, g), vec![true]);
}

#[test]
fn and_not_end_to_end() {
    let mut sim = LogicSimulation::new();
    let a = sim.add_gate(And);
    let b = sim.add_gate(Not);
    assert_eq!((a, b), (0, 1));
    sim.add_connection(a, 0, b, 0).unwrap();
    // two drivers held true: a NOT gate with no input outputs true from the first tick on
    let hi = sim.add_gate(Not);
    let y1 = sim.add_gate(Yes);
    let y2 = sim.add_gate(Yes);
    sim.add_connection(hi, 0, y1, 0).unwrap();
    sim.add_connection(hi, 0, y2, 0).unwrap();
    sim.simulate();
    assert_eq!(outputs_of(&sim, hi), vec![true]);
    sim.add_connection(y1, 0, a, 0).unwrap();
    sim.add_connection(y2, 0, a, 1).unwrap();
    // YES, AND, NOT: one hop each
    sim.simulate();
    assert_eq!(outputs_of(&sim, y1), vec![true]);
    assert_eq!(outputs_of(&sim, y2), vec![true]);
    sim.simulate();
    assert_eq!(outputs_of(&sim, a), vec![true]);
    sim.simulate();
    assert_eq!(inputs_of(&sim, b), vec![true]);
    assert_eq!(outputs_of(&sim, b), vec![false]);
    assert_eq!(sim.get_gate_name(a), Ok("AND"));
    assert_eq!(sim.get_gate_name(b), Ok("NOT"));
}

#[test]
fn gate_ids_lists_live_gates_in_order() {
    let mut sim = LogicSimulation::new();
    assert_eq!(sim.gate_ids(), Vec::<usize>::new());
    let a = sim.add_gate(And);
    let b = sim.add_gate(Not);
    let c = sim.add_gate(Yes);
    sim.remove_gate(b);
    assert_eq!(sim.gate_ids(), vec![a, c]);
    let d = sim.add_gate(Or);
    assert_eq!(sim.gate_ids(), vec![0, 2, 3]);
    assert_eq!(d, 3);
}
