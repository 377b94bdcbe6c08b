pub mod gates;
pub mod logic_simulation;
pub mod network_facts;

pub use gates::{And, And3, Gate, GateKind, Nand, Nor, Not, Or, Xnor, Xor, Yes};
pub use logic_simulation::{Connection, LogicSimulation, SimError};
