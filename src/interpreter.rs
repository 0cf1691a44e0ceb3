use vstd::prelude::*;
use crate::ast::{node_wf, AstNode};
use crate::error::EvalError;
use crate::quantity::{
    quantity_op, quantity_result, written_quantity, DimensionedValue, QuantityModel,
};

verus! {

/// The value of `node` with the variables of `memory`: a literal is its
/// payload brought to base units under its unit, a name is looked up, an
/// expression evaluates its left side, then its right side, then combines
/// them. A binding is no expression.
pub open spec fn eval(node: AstNode, memory: Map<Seq<char>, QuantityModel>) -> Result<
    QuantityModel,
    EvalError,
>
    decreases node,
{
    match node {
        AstNode::Literal { value, unit } => written_quantity(value@, unit@),
        AstNode::Name(n) => if memory.contains_key(n@) {
            Ok(memory[n@])
        } else {
            Err(EvalError::UndefinedVariable)
        },
        AstNode::Expression { operation, lhs, rhs } => match eval(*lhs, memory) {
            Err(e) => Err(e),
            Ok(a) => match eval(*rhs, memory) {
                Err(e) => Err(e),
                Ok(b) => quantity_op(operation, a, b),
            },
        },
        AstNode::Variable { .. } => Err(EvalError::MisplacedBinding),
    }
}

/// The memory after the statement `stmt`: a binding stores the value of its
/// expression under its name, replacing an earlier value of that name.
pub open spec fn exec_statement(stmt: AstNode, memory: Map<Seq<char>, QuantityModel>) -> Result<
    Map<Seq<char>, QuantityModel>,
    EvalError,
> {
    match stmt {
        AstNode::Variable { name, expr } => match eval(*expr, memory) {
            Ok(q) => Ok(memory.insert(name@, q)),
            Err(e) => Err(e),
        },
        _ => Err(EvalError::NotABinding),
    }
}

/// The memory after the first `n` statements, run in order from `memory`,
/// and the error of the statement that failed, if one did. Nothing after a
/// failing statement runs.
pub open spec fn run_statements(
    stmts: Seq<AstNode>,
    memory: Map<Seq<char>, QuantityModel>,
    n: int,
) -> (Map<Seq<char>, QuantityModel>, Option<EvalError>)
    decreases n,
{
    if n <= 0 {
        (memory, None)
    } else {
        let (m, failed) = run_statements(stmts, memory, n - 1);
        if failed is Some {
            (m, failed)
        } else {
            match exec_statement(stmts[n - 1], m) {
                Ok(next) => (next, None),
                Err(e) => (m, Some(e)),
            }
        }
    }
}

/// The variable store: each name bound to one value.
pub struct Memory {
    entries: Vec<(String, DimensionedValue)>,
    model: Ghost<Map<Seq<char>, QuantityModel>>,
}

impl View for Memory {
    type V = Map<Seq<char>, QuantityModel>;

    closed spec fn view(&self) -> Map<Seq<char>, QuantityModel> {
        self.model@
    }
}

impl Memory {
    /// The entries hold well-formed values under distinct names, and are
    /// exactly the bindings of the map that the memory stands for.
    pub closed spec fn wf(&self) -> bool {
        &&& forall|i: int| 0 <= i < self.entries@.len() ==> (#[trigger] self.entries@[i]).1.wf()
        &&& forall|i: int, j: int|
            0 <= i < self.entries@.len() && 0 <= j < self.entries@.len() && i != j
                ==> (#[trigger] self.entries@[i]).0@ != (#[trigger] self.entries@[j]).0@
        &&& forall|i: int|
            0 <= i < self.entries@.len() ==> self.model@.contains_key((#[trigger] self.entries@[i]).0@)
                && self.model@[self.entries@[i].0@] == self.entries@[i].1@
        &&& forall|k: Seq<char>|
            #[trigger] self.model@.contains_key(k) ==> exists|i: int|
                0 <= i < self.entries@.len() && (#[trigger] self.entries@[i]).0@ == k
    }

    /// The memory without bindings.
    pub fn new() -> (r: Memory)
        ensures
            r.wf(),
            r@ == Map::<Seq<char>, QuantityModel>::empty(),
    {
        Memory { entries: Vec::new(), model: Ghost(Map::empty()) }
    }

    /// The number of bound names.
    pub fn len(&self) -> (r: usize)
        requires
            self.wf(),
        ensures
            r == self@.dom().len(),
    {
        proof {
            self.lemma_len();
        }
        self.entries.len()
    }

    proof fn lemma_len(&self)
        requires
            self.wf(),
        ensures
            self.entries@.len() == self@.dom().len(),
    {
        let keys = self.entries@.map_values(|e: (String, DimensionedValue)| e.0@);
        assert(self@.dom() =~= keys.to_set()) by {
            assert forall|k: Seq<char>| self@.dom().contains(k) implies keys.to_set().contains(k) by {
                let i = choose|i: int| 0 <= i < self.entries@.len() && (#[trigger] self.entries@[i]).0@ == k;
                assert(keys[i] == k);
            }
            assert forall|k: Seq<char>| keys.to_set().contains(k) implies self@.dom().contains(k) by {
                let i = choose|i: int| 0 <= i < keys.len() && keys[i] == k;
                assert(self.entries@[i].0@ == k);
            }
        }
        assert(keys.no_duplicates()) by {
            assert forall|i: int, j: int| 0 <= i < keys.len() && 0 <= j < keys.len() && i != j implies keys[i] != keys[j] by {
                assert(self.entries@[i].0@ != self.entries@[j].0@);
            }
        }
        keys.unique_seq_to_set();
    }

    /// The `i`th binding, in the order in which names were first bound.
    pub fn entry(&self, i: usize) -> (r: (&String, &DimensionedValue))
        requires
            self.wf(),
            i < self@.dom().len(),
        ensures
            self@.contains_key(r.0@),
            self@[r.0@] == r.1@,
            r.1.wf(),
    {
        proof {
            self.lemma_len();
        }
        let e = &self.entries[i];
        (&e.0, &e.1)
    }

    /// The value bound to `name`, if any.
    pub fn get(&self, name: &String) -> (r: Option<&DimensionedValue>)
        requires
            self.wf(),
        ensures
            r is Some == self@.contains_key(name@),
            r matches Some(q) ==> q@ == self@[name@] && q.wf(),
    {
        match self.position(name) {
            Some(i) => Some(&self.entries[i].1),
            None => None,
        }
    }

    fn position(&self, name: &String) -> (r: Option<usize>)
        requires
            self.wf(),
        ensures
            r is Some == self@.contains_key(name@),
            r matches Some(i) ==> i < self.entries@.len() && self.entries@[i as int].0@ == name@,
    {
        let mut i: usize = 0;
        while i < self.entries.len()
            invariant
                self.wf(),
                i <= self.entries@.len(),
                forall|j: int| 0 <= j < i ==> (#[trigger] self.entries@[j]).0@ != name@,
            decreases self.entries@.len() - i,
        {
            if self.entries[i].0 == *name {
                assert(self.model@.contains_key(self.entries@[i as int].0@));
                return Some(i);
            }
            i = i + 1;
        }
        None
    }

    /// Binds `name` to `value`, replacing an earlier value of that name.
    pub fn insert(&mut self, name: String, value: DimensionedValue)
        requires
            old(self).wf(),
            value.wf(),
        ensures
            final(self).wf(),
            final(self)@ == old(self)@.insert(name@, value@),
    {
        let ghost key = name@;
        let ghost q = value@;
        let ghost before = self.entries@;
        match self.position(&name) {
            Some(i) => {
                self.entries[i] = (name, value);
                proof {
                    self.model@ = self.model@.insert(key, q);
                    assert forall|k: Seq<char>| #[trigger] self.model@.contains_key(k) implies exists|j: int|
                        0 <= j < self.entries@.len() && (#[trigger] self.entries@[j]).0@ == k by {
                        if k != key {
                            let j = choose|j: int| 0 <= j < before.len() && (#[trigger] before[j]).0@ == k;
                            assert(self.entries@[j].0@ == k);
                        } else {
                            assert(self.entries@[i as int].0@ == k);
                        }
                    }
                }
            },
            None => {
                self.entries.push((name, value));
                proof {
                    self.model@ = self.model@.insert(key, q);
                    let n = before.len() as int;
                    assert(self.entries@[n].0@ == key);
                    assert forall|k: Seq<char>| #[trigger] self.model@.contains_key(k) implies exists|j: int|
                        0 <= j < self.entries@.len() && (#[trigger] self.entries@[j]).0@ == k by {
                        if k != key {
                            let j = choose|j: int| 0 <= j < before.len() && (#[trigger] before[j]).0@ == k;
                            assert(self.entries@[j].0@ == k);
                        }
                    }
                }
            },
        }
    }

    /// Runs the statement `stmt`: a binding stores its expression's value.
    /// On an error the memory is left as it was.
    pub fn execute(&mut self, stmt: &AstNode) -> (r: Result<(), EvalError>)
        requires
            old(self).wf(),
            node_wf(*stmt),
        ensures
            final(self).wf(),
            match exec_statement(*stmt, old(self)@) {
                Ok(m) => r is Ok && final(self)@ == m,
                Err(e) => r == Err::<(), EvalError>(e) && final(self)@ == old(self)@,
            },
    {
        match stmt {
            AstNode::Variable { name, expr } => {
                let q = evaluate(expr, self)?;
                self.insert(name.clone(), q);
                Ok(())
            },
            _ => Err(EvalError::NotABinding),
        }
    }
}

/// The value of `node` with the variables of `memory`.
pub fn evaluate(node: &AstNode, memory: &Memory) -> (r: Result<DimensionedValue, EvalError>)
    requires
        node_wf(*node),
        memory.wf(),
    ensures
        quantity_result(r) == eval(*node, memory@),
        r matches Ok(q) ==> q.wf(),
    decreases node,
{
    match node {
        AstNode::Literal { value, unit } => DimensionedValue::new(value.duplicate(), unit.duplicate()),
        AstNode::Name(n) => match memory.get(n) {
            Some(q) => Ok(q.duplicate()),
            None => Err(EvalError::UndefinedVariable),
        },
        AstNode::Expression { operation, lhs, rhs } => {
            let a = evaluate(lhs, memory)?;
            let b = evaluate(rhs, memory)?;
            a.apply(*operation, &b)
        },
        AstNode::Variable { .. } => Err(EvalError::MisplacedBinding),
    }
}

/// A program and the memory that running it fills.
pub struct Interpreter {
    pub program: Vec<AstNode>,
    pub memory: Memory,
}

impl Interpreter {
    /// The interpreter of `program`, with an empty memory.
    pub fn new(program: Vec<AstNode>) -> (r: Interpreter)
        ensures
            r.program == program,
            r.memory.wf(),
            r.memory@ == Map::<Seq<char>, QuantityModel>::empty(),
    {
        Interpreter { program, memory: Memory::new() }
    }

    /// Runs the statements of the program in order, up to the first that
    /// fails; that one's error is returned, and the memory keeps what the
    /// statements before it bound.
    pub fn run(&mut self) -> (r: Result<(), EvalError>)
        requires
            old(self).memory.wf(),
            forall|i: int| 0 <= i < old(self).program@.len() ==> node_wf(#[trigger] old(self).program@[i]),
        ensures
            final(self).memory.wf(),
            final(self).program == old(self).program,
            ({
                let (m, failed) = run_statements(
                    old(self).program@,
                    old(self).memory@,
                    old(self).program@.len() as int,
                );
                final(self).memory@ == m && match failed {
                    Some(e) => r == Err::<(), EvalError>(e),
                    None => r is Ok,
                }
            }),
    {
        let ghost start = self.memory@;
        let n = self.program.len();
        let mut i: usize = 0;
        while i < n
            invariant
                i <= n,
                n == self.program@.len(),
                self.program == old(self).program,
                start == old(self).memory@,
                self.memory.wf(),
                forall|j: int| 0 <= j < self.program@.len() ==> node_wf(#[trigger] self.program@[j]),
                run_statements(self.program@, start, i as int) == (self.memory@, None::<EvalError>),
            decreases n - i,
        {
            let ghost before = self.memory@;
            let r = self.memory.execute(&self.program[i]);
            if let Err(e) = r {
                proof {
                    lemma_run_stops(self.program@, start, i + 1, n as int);
                }
                return Err(e);
            }
            i = i + 1;
        }
        Ok(())
    }
}

/// Once a statement has failed, running more statements changes nothing.
proof fn lemma_run_stops(
    stmts: Seq<AstNode>,
    memory: Map<Seq<char>, QuantityModel>,
    k: int,
    n: int,
)
    requires
        0 <= k <= n,
        run_statements(stmts, memory, k).1 is Some,
    ensures
        run_statements(stmts, memory, n) == run_statements(stmts, memory, k),
    decreases n - k,
{
    if n > k {
        lemma_run_stops(stmts, memory, k, n - 1);
    }
}

} // verus!
