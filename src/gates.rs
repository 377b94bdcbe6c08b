use vstd::prelude::*;

verus! {

/// The closed set of gate definitions the simulator knows about.
#[derive(Clone, Copy, Debug, PartialEq, Eq, Structural)]
pub enum GateKind {
    And,
    And3,
    Nand,
    Or,
    Nor,
    Xor,
    Xnor,
    Not,
    Yes,
}

impl GateKind {
    /// Number of input ports of this gate.
    pub open spec fn input_count(self) -> nat {
        match self {
            GateKind::And3 => 3,
            GateKind::Not | GateKind::Yes => 1,
            _ => 2,
        }
    }

    /// Number of output ports of this gate (every built-in gate has one).
    pub open spec fn output_count(self) -> nat {
        1
    }

    /// The value of the single output, as a function of the inputs.
    pub open spec fn truth(self, i: Seq<bool>) -> bool {
        match self {
            GateKind::And => i[0] && i[1],
            GateKind::And3 => i[0] && i[1] && i[2],
            GateKind::Nand => !(i[0] && i[1]),
            GateKind::Or => i[0] || i[1],
            GateKind::Nor => !(i[0] || i[1]),
            GateKind::Xor => i[0] != i[1],
            GateKind::Xnor => i[0] == i[1],
            GateKind::Not => !i[0],
            GateKind::Yes => i[0],
        }
    }

    /// The full output vector for an input vector of the right length.
    pub open spec fn eval(self, inputs: Seq<bool>) -> Seq<bool> {
        seq![self.truth(inputs)]
    }

    /// Display name of this definition.
    pub open spec fn display_name(self) -> Seq<char> {
        match self {
            GateKind::And => "AND"@,
            GateKind::And3 => "AND3"@,
            GateKind::Nand => "NAND"@,
            GateKind::Or => "OR"@,
            GateKind::Nor => "NOR"@,
            GateKind::Xor => "XOR"@,
            GateKind::Xnor => "XNOR"@,
            GateKind::Not => "NOT"@,
            GateKind::Yes => "YES"@,
        }
    }

    pub fn inputs(&self) -> (n: usize)
        ensures
            n == self.input_count(),
    {
        match self {
            GateKind::And3 => 3,
            GateKind::Not | GateKind::Yes => 1,
            _ => 2,
        }
    }

    pub fn outputs(&self) -> (n: usize)
        ensures
            n == self.output_count(),
    {
        1
    }

    pub fn name(&self) -> (r: &'static str)
        ensures
            r@ == self.display_name(),
    {
        match self {
            GateKind::And => "AND",
            GateKind::And3 => "AND3",
            GateKind::Nand => "NAND",
            GateKind::Or => "OR",
            GateKind::Nor => "NOR",
            GateKind::Xor => "XOR",
            GateKind::Xnor => "XNOR",
            GateKind::Not => "NOT",
            GateKind::Yes => "YES",
        }
    }

    /// Evaluates this definition on an input vector of its own arity.
    pub fn evaluate(&self, inputs: &[bool]) -> (r: Vec<bool>)
        requires
            inputs@.len() == self.input_count(),
        ensures
            r@ == self.eval(inputs@),
    {
        let v = match self {
            GateKind::And => inputs[0] && inputs[1],
            GateKind::And3 => inputs[0] && inputs[1] && inputs[2],
            GateKind::Nand => !(inputs[0] && inputs[1]),
            GateKind::Or => inputs[0] || inputs[1],
            GateKind::Nor => !(inputs[0] || inputs[1]),
            GateKind::Xor => inputs[0] != inputs[1],
            GateKind::Xnor => inputs[0] == inputs[1],
            GateKind::Not => !inputs[0],
            GateKind::Yes => inputs[0],
        };
        let mut r: Vec<bool> = Vec::new();
        r.push(v);
        assert(r@ =~= self.eval(inputs@));
        r
    }
}

/// A boolean transfer function with a fixed number of inputs and outputs.
pub trait Gate<const INPUTS: usize, const OUTPUTS: usize> {
    /// Which definition this gate implements.
    spec fn definition(&self) -> GateKind;

    fn kind(&self) -> (k: GateKind)
        ensures
            k == self.definition(),
            k.input_count() == INPUTS,
            k.output_count() == OUTPUTS,
    ;

    fn update(&self, inputs: &[bool; INPUTS], outputs: &mut [bool; OUTPUTS])
        ensures
            final(outputs)@ == self.definition().eval(inputs@),
    ;

    fn name(&self) -> (r: &'static str)
        ensures
            r@ == self.definition().display_name(),
    ;
}

pub struct And;

impl Gate<2, 1> for And {
    open spec fn definition(&self) -> GateKind {
        GateKind::And
    }

    fn kind(&self) -> (k: GateKind) {
        GateKind::And
    }

    fn update(&self, inputs: &[bool; 2], outputs: &mut [bool; 1]) {
        outputs[0] = inputs[0] && inputs[1];
        assert(outputs@ =~= GateKind::And.eval(inputs@));
    }

    fn name(&self) -> (r: &'static str) {
        GateKind::And.name()
    }
}

pub struct And3;

impl Gate<3, 1> for And3 {
    open spec fn definition(&self) -> GateKind {
        GateKind::And3
    }

    fn kind(&self) -> (k: GateKind) {
        GateKind::And3
    }

    fn update(&self, inputs: &[bool; 3], outputs: &mut [bool; 1]) {
        outputs[0] = inputs[0] && inputs[1] && inputs[2];
        assert(outputs@ =~= GateKind::And3.eval(inputs@));
    }

    fn name(&self) -> (r: &'static str) {
        GateKind::And3.name()
    }
}

pub struct Nand;

impl Gate<2, 1> for Nand {
    open spec fn definition(&self) -> GateKind {
        GateKind::Nand
    }

    fn kind(&self) -> (k: GateKind) {
        GateKind::Nand
    }

    fn update(&self, inputs: &[bool; 2], outputs: &mut [bool; 1]) {
        outputs[0] = !(inputs[0] && inputs[1]);
        assert(outputs@ =~= GateKind::Nand.eval(inputs@));
    }

    fn name(&self) -> (r: &'static str) {
        GateKind::Nand.name()
    }
}

pub struct Or;

impl Gate<2, 1> for Or {
    open spec fn definition(&self) -> GateKind {
        GateKind::Or
    }

    fn kind(&self) -> (k: GateKind) {
        GateKind::Or
    }

    fn update(&self, inputs: &[bool; 2], outputs: &mut [bool; 1]) {
        outputs[0] = inputs[0] || inputs[1];
        assert(outputs@ =~= GateKind::Or.eval(inputs@));
    }

    fn name(&self) -> (r: &'static str) {
        GateKind::Or.name()
    }
}

pub struct Nor;

impl Gate<2, 1> for Nor {
    open spec fn definition(&self) -> GateKind {
        GateKind::Nor
    }

    fn kind(&self) -> (k: GateKind) {
        GateKind::Nor
    }

    fn update(&self, inputs: &[bool; 2], outputs: &mut [bool; 1]) {
        outputs[0] = !(inputs[0] || inputs[1]);
        assert(outputs@ =~= GateKind::Nor.eval(inputs@));
    }

    fn name(&self) -> (r: &'static str) {
        GateKind::Nor.name()
    }
}

pub struct Xor;

impl Gate<2, 1> for Xor {
    open spec fn definition(&self) -> GateKind {
        GateKind::Xor
    }

    fn kind(&self) -> (k: GateKind) {
        GateKind::Xor
    }

    fn update(&self, inputs: &[bool; 2], outputs: &mut [bool; 1]) {
        outputs[0] = inputs[0] != inputs[1];
        assert(outputs@ =~= GateKind::Xor.eval(inputs@));
    }

    fn name(&self) -> (r: &'static str) {
        GateKind::Xor.name()
    }
}

pub struct Xnor;

impl Gate<2, 1> for Xnor {
    open spec fn definition(&self) -> GateKind {
        GateKind::Xnor
    }

    fn kind(&self) -> (k: GateKind) {
        GateKind::Xnor
    }

    fn update(&self, inputs: &[bool; 2], outputs: &mut [bool; 1]) {
        outputs[0] = !(inputs[0] != inputs[1]);
        assert(outputs@ =~= GateKind::Xnor.eval(inputs@));
    }

    fn name(&self) -> (r: &'static str) {
        GateKind::Xnor.name()
    }
}

pub struct Not;

impl Gate<1, 1> for Not {
    open spec fn definition(&self) -> GateKind {
        GateKind::Not
    }

    fn kind(&self) -> (k: GateKind) {
        GateKind::Not
    }

    fn update(&self, inputs: &[bool; 1], outputs: &mut [bool; 1]) {
        outputs[0] = !inputs[0];
        assert(outputs@ =~= GateKind::Not.eval(inputs@));
    }

    fn name(&self) -> (r: &'static str) {
        GateKind::Not.name()
    }
}

pub struct Yes;

impl Gate<1, 1> for Yes {
    open spec fn definition(&self) -> GateKind {
        GateKind::Yes
    }

    fn kind(&self) -> (k: GateKind) {
        GateKind::Yes
    }

    fn update(&self, inputs: &[bool; 1], outputs: &mut [bool; 1]) {
        outputs[0] = inputs[0];
        assert(outputs@ =~= GateKind::Yes.eval(inputs@));
    }

    fn name(&self) -> (r: &'static str) {
        GateKind::Yes.name()
    }
}

} // verus!
