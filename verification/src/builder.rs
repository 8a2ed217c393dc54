//! A constraint system as plain values: the oracles with their witness, and the
//! steps that declare and constrain them.

use crate::blake3::Blake3CompressState;
use crate::blake3::CompressInput;
use vstd::prelude::*;

verus! {

/// The index of an oracle. An oracle here is a column of a single 32-bit
/// binary field element.
pub type OracleId = usize;

/// How many oracles one compression yields.
pub const COMPRESS_OUTPUTS: usize = 16;

/// An arithmetic expression over numbered inputs.
#[derive(Debug)]
pub enum ArithExpr {
    Var(usize),
    Plus(Box<ArithExpr>, Box<ArithExpr>),
    Minus(Box<ArithExpr>, Box<ArithExpr>),
}

impl ArithExpr {
    /// Whether the expression names none but the first `n` inputs.
    pub open spec fn within(self, n: nat) -> bool
        decreases self,
    {
        match self {
            ArithExpr::Var(i) => i < n,
            ArithExpr::Plus(a, b) => a.within(n) && b.within(n),
            ArithExpr::Minus(a, b) => a.within(n) && b.within(n),
        }
    }

    /// The value of the expression in the 32-bit binary field. The field has
    /// characteristic two: sum and difference are both the bitwise exclusive or.
    pub open spec fn eval(self, inputs: Seq<u32>) -> u32
        decreases self,
    {
        match self {
            ArithExpr::Var(i) => inputs[i as int],
            ArithExpr::Plus(a, b) => a.eval(inputs) ^ b.eval(inputs),
            ArithExpr::Minus(a, b) => a.eval(inputs) ^ b.eval(inputs),
        }
    }

    /// Whether the expression names none but the first three inputs.
    pub fn is_ternary(&self) -> (ternary: bool)
        ensures
            ternary == self.within(3),
        decreases self,
    {
        match self {
            ArithExpr::Var(i) => *i < 3,
            ArithExpr::Plus(a, b) => a.is_ternary() && b.is_ternary(),
            ArithExpr::Minus(a, b) => a.is_ternary() && b.is_ternary(),
        }
    }

    /// Computes the value of the expression.
    pub fn evaluate(&self, inputs: &[u32; 3]) -> (value: u32)
        requires
            self.within(3),
        ensures
            value == self.eval(inputs@),
        decreases self,
    {
        match self {
            ArithExpr::Var(i) => inputs[*i],
            ArithExpr::Plus(a, b) => a.evaluate(inputs) ^ b.evaluate(inputs),
            ArithExpr::Minus(a, b) => a.evaluate(inputs) ^ b.evaluate(inputs),
        }
    }
}

/// One entry of a constraint system.
#[derive(Debug)]
pub enum Step {
    /// A committed oracle whose witness is chosen freely.
    Fixed { name: &'static str, oracle: OracleId },
    /// The sixteen oracles from `output` on are the compression of `state`.
    Compress { state: Blake3CompressState, output: OracleId },
    /// The expression over the three oracles is zero.
    AssertZero { name: &'static str, oracles: [OracleId; 3], expr: ArithExpr },
}

/// One entry of a constraint system, over mathematical sequences.
pub enum StepView {
    Fixed { name: Seq<char>, oracle: int },
    Compress { state: CompressInput, output: int },
    AssertZero { name: Seq<char>, oracles: Seq<usize>, expr: ArithExpr },
}

impl View for Step {
    type V = StepView;

    open spec fn view(&self) -> StepView {
        match *self {
            Step::Fixed { name, oracle } => StepView::Fixed { name: name@, oracle: oracle as int },
            Step::Compress { state, output } => StepView::Compress {
                state: state@,
                output: output as int,
            },
            Step::AssertZero { name, oracles, expr } => StepView::AssertZero {
                name: name@,
                oracles: oracles@,
                expr,
            },
        }
    }
}

/// A constraint system with its witness, over mathematical sequences.
#[verifier::ext_equal]
pub struct System {
    /// The most oracles that the system may hold.
    pub limit: usize,
    /// The witness of each oracle, by index.
    pub values: Seq<u32>,
    pub steps: Seq<StepView>,
}

impl System {
    /// The system without oracles or steps.
    pub open spec fn empty(limit: usize) -> System {
        System { limit, values: Seq::empty(), steps: Seq::empty() }
    }

    /// Whether there is room for `n` more oracles. There always is for none.
    pub open spec fn has_room(self, n: nat) -> bool {
        n == 0 || self.values.len() + n <= self.limit
    }

    /// The indices of the next `n` oracles.
    pub open spec fn next_ids(self, n: nat) -> Seq<usize> {
        Seq::new(n, |i: int| (self.values.len() + i) as usize)
    }

    /// The system with one more committed oracle.
    pub open spec fn fixed(self, name: Seq<char>, value: u32) -> System {
        System {
            values: self.values.push(value),
            steps: self.steps.push(StepView::Fixed { name, oracle: self.values.len() as int }),
            ..self
        }
    }

    /// The system with sixteen more oracles, the compression of `state`.
    pub open spec fn compressed(self, state: CompressInput) -> System {
        System {
            values: self.values + crate::blake3::compression(state),
            steps: self.steps.push(
                StepView::Compress { state, output: self.values.len() as int },
            ),
            ..self
        }
    }

    /// The system with one more constraint.
    pub open spec fn asserted_zero(
        self,
        name: Seq<char>,
        oracles: Seq<usize>,
        expr: ArithExpr,
    ) -> System {
        System { steps: self.steps.push(StepView::AssertZero { name, oracles, expr }), ..self }
    }

    /// Whether the witness satisfies `step`. A step that names an oracle or an
    /// input that does not exist is not satisfied.
    pub open spec fn step_holds(self, step: StepView) -> bool {
        match step {
            StepView::Fixed { name, oracle } => 0 <= oracle < self.values.len(),
            StepView::Compress { state, output } => {
                &&& 0 <= output
                &&& output + COMPRESS_OUTPUTS <= self.values.len()
                &&& self.values.subrange(output, output + COMPRESS_OUTPUTS)
                    == crate::blake3::compression(state)
            },
            StepView::AssertZero { name, oracles, expr } => {
                &&& expr.within(oracles.len())
                &&& forall|i: int|
                    0 <= i < oracles.len() ==> #[trigger] oracles[i] < self.values.len()
                &&& expr.eval(oracles.map_values(|o: usize| self.values[o as int])) == 0
            },
        }
    }

    /// Whether the witness satisfies every step.
    pub open spec fn satisfied(self) -> bool {
        forall|i: int| 0 <= i < self.steps.len() ==> self.step_holds(#[trigger] self.steps[i])
    }

    /// Whether `self` is `earlier` with more oracles and steps behind it.
    pub open spec fn extends(self, earlier: System) -> bool {
        &&& self.limit == earlier.limit
        &&& earlier.values.is_prefix_of(self.values)
        &&& earlier.steps.is_prefix_of(self.steps)
    }
}

/// What extends an extension of a system extends that system.
pub proof fn lemma_extends_trans(a: System, b: System, c: System)
    requires
        b.extends(a),
        c.extends(b),
    ensures
        c.extends(a),
{
    assert(c.values.subrange(0, a.values.len() as int) == b.values.subrange(
        0,
        a.values.len() as int,
    ));
    assert(c.steps.subrange(0, a.steps.len() as int) == b.steps.subrange(0, a.steps.len() as int));
}

/// An extension of a system agrees with it on its oracles and its steps.
pub proof fn lemma_extends_agrees(s: System, t: System)
    requires
        t.extends(s),
    ensures
        forall|i: int| 0 <= i < s.values.len() ==> #[trigger] t.values[i] == s.values[i],
        forall|i: int| 0 <= i < s.steps.len() ==> #[trigger] t.steps[i] == s.steps[i],
{
    assert forall|i: int| 0 <= i < s.values.len() implies #[trigger] t.values[i] == s.values[i] by {
        assert(t.values.subrange(0, s.values.len() as int)[i] == t.values[i]);
    }
    assert forall|i: int| 0 <= i < s.steps.len() implies #[trigger] t.steps[i] == s.steps[i] by {
        assert(t.steps.subrange(0, s.steps.len() as int)[i] == t.steps[i]);
    }
}

/// Why a builder refuses a request.
#[derive(Debug, Copy, Clone, PartialEq, Eq, Structural)]
pub enum BuilderError {
    /// The oracles asked for would exceed the limit.
    TooManyOracles,
}

/// The oracles that a compression yields.
#[derive(Debug, Copy, Clone)]
pub struct Blake3CompressOracle {
    pub output: [OracleId; 16],
}

/// Collects a constraint system and its witness.
pub struct ConstraintSystemBuilder {
    limit: usize,
    values: Vec<u32>,
    steps: Vec<Step>,
}

impl View for ConstraintSystemBuilder {
    type V = System;

    closed spec fn view(&self) -> System {
        System {
            limit: self.limit,
            values: self.values@,
            steps: self.steps@.map_values(|s: Step| s@),
        }
    }
}

impl ConstraintSystemBuilder {
    /// An empty builder that holds as many oracles as can be numbered.
    pub fn new() -> (builder: Self)
        ensures
            builder@ == System::empty(usize::MAX),
    {
        Self::with_limit(usize::MAX)
    }

    /// An empty builder for at most `limit` oracles.
    pub fn with_limit(limit: usize) -> (builder: Self)
        ensures
            builder@ == System::empty(limit),
    {
        let builder = ConstraintSystemBuilder { limit, values: Vec::new(), steps: Vec::new() };
        assert(builder@.steps == Seq::<StepView>::empty());
        builder
    }

    /// Whether `n` more oracles fit.
    pub fn has_room(&self, n: usize) -> (fits: bool)
        ensures
            fits == self@.has_room(n as nat),
    {
        n == 0 || (self.values.len() <= self.limit && self.limit - self.values.len() >= n)
    }

    /// Commits an oracle with the witness `value`.
    pub fn fixed_u32(&mut self, name: &'static str, value: u32) -> (result: Result<
        OracleId,
        BuilderError,
    >)
        ensures
            result is Ok <==> old(self)@.has_room(1),
            result matches Ok(oracle) ==> {
                &&& oracle == old(self)@.values.len()
                &&& final(self)@ == old(self)@.fixed(name@, value)
            },
            result is Err ==> {
                &&& result == Err::<OracleId, _>(BuilderError::TooManyOracles)
                &&& final(self)@ == old(self)@
            },
    {
        if !self.has_room(1) {
            return Err(BuilderError::TooManyOracles);
        }
        let oracle = self.values.len();
        self.values.push(value);
        self.steps.push(Step::Fixed { name, oracle });
        assert(self@.steps == old(self)@.fixed(name@, value).steps);
        Ok(oracle)
    }

    /// Constrains sixteen new oracles to be the compression of `state`.
    pub fn blake3_compress(&mut self, state: Blake3CompressState) -> (result: Result<
        Blake3CompressOracle,
        BuilderError,
    >)
        ensures
            result is Ok <==> old(self)@.has_room(COMPRESS_OUTPUTS as nat),
            result matches Ok(oracle) ==> {
                &&& oracle.output@ == old(self)@.next_ids(COMPRESS_OUTPUTS as nat)
                &&& final(self)@ == old(self)@.compressed(state@)
            },
            result is Err ==> {
                &&& result == Err::<Blake3CompressOracle, _>(BuilderError::TooManyOracles)
                &&& final(self)@ == old(self)@
            },
    {
        if !self.has_room(COMPRESS_OUTPUTS) {
            return Err(BuilderError::TooManyOracles);
        }
        let first = self.values.len();
        let words = state.compress();
        let mut output: [OracleId; 16] = [first; 16];
        for i in 0..COMPRESS_OUTPUTS
            invariant
                first + COMPRESS_OUTPUTS <= usize::MAX,
                first == old(self)@.values.len(),
                self.limit == old(self).limit,
                self.steps@ == old(self).steps@,
                self.values@ == old(self).values@ + words@.take(i as int),
                forall|k: int| 0 <= k < i ==> #[trigger] output@[k] == first + k,
        {
            self.values.push(words[i]);
            output[i] = first + i;
            assert(words@.take(i + 1) == words@.take(i as int).push(words@[i as int]));
        }
        assert(words@.take(16) == words@);
        self.steps.push(Step::Compress { state, output: first });
        assert(self@.steps == old(self)@.compressed(state@).steps);
        Ok(Blake3CompressOracle { output })
    }

    /// Constrains the expression over the three oracles to be zero.
    pub fn assert_zero(&mut self, name: &'static str, oracles: [OracleId; 3], expr: ArithExpr)
        ensures
            final(self)@ == old(self)@.asserted_zero(name@, oracles@, expr),
    {
        self.steps.push(Step::AssertZero { name, oracles, expr });
        assert(self@.steps == old(self)@.asserted_zero(name@, oracles@, expr).steps);
    }

    /// The steps so far, in order.
    pub fn steps(&self) -> (steps: &Vec<Step>)
        ensures
            steps@.map_values(|s: Step| s@) == self@.steps,
    {
        &self.steps
    }

    /// The witness of each oracle so far, by index.
    pub fn values(&self) -> (values: &Vec<u32>)
        ensures
            values@ == self@.values,
    {
        &self.values
    }

    /// Checks the witness against one step.
    fn satisfies(&self, step: &Step) -> (satisfied: bool)
        ensures
            satisfied == self@.step_holds(step@),
    {
        let n = self.values.len();
        match step {
            Step::Fixed { oracle, .. } => *oracle < n,
            Step::Compress { state, output } => {
                if n < COMPRESS_OUTPUTS || *output > n - COMPRESS_OUTPUTS {
                    return false;
                }
                let words = state.compress();
                for i in 0..COMPRESS_OUTPUTS
                    invariant
                        n == self.values@.len(),
                        output + COMPRESS_OUTPUTS <= n,
                        words@ == crate::blake3::compression(state@),
                        step@ == (StepView::Compress { state: state@, output: output as int }),
                        forall|k: int| 0 <= k < i ==> self.values@[output + k] == #[trigger] words@[k],
                {
                    if self.values[*output + i] != words[i] {
                        assert(self.values@.subrange(output as int, output + COMPRESS_OUTPUTS)[i as int]
                            != words@[i as int]);
                        return false;
                    }
                }
                assert(self.values@.subrange(output as int, output + COMPRESS_OUTPUTS) == words@);
                true
            },
            Step::AssertZero { oracles, expr, .. } => {
                if !expr.is_ternary() || oracles[0] >= n || oracles[1] >= n || oracles[2] >= n {
                    return false;
                }
                let inputs = [
                    self.values[oracles[0]],
                    self.values[oracles[1]],
                    self.values[oracles[2]],
                ];
                assert(inputs@ == oracles@.map_values(|o: usize| self@.values[o as int]));
                expr.evaluate(&inputs) == 0
            },
        }
    }

    /// Checks the witness against every step.
    pub fn validate(&self) -> (valid: bool)
        ensures
            valid == self@.satisfied(),
    {
        for i in 0..self.steps.len()
            invariant
                forall|k: int| 0 <= k < i ==> self@.step_holds(#[trigger] self@.steps[k]),
        {
            assert(self@.steps[i as int] == self.steps@[i as int]@);
            if !self.satisfies(&self.steps[i]) {
                return false;
            }
        }
        true
    }
}

} // verus!
