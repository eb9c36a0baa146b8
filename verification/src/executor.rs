//! Execution: walking the program tree against the tape.
//!
//! The tape holds one cell per value of the pointer type, so the pointer
//! always addresses a valid cell; pointer moves and cell arithmetic wrap
//! modulo `2^8` by construction.  Input is an ordered byte sequence consumed
//! one byte per input command — on exhaustion the cell is left unchanged and
//! the run continues — and output is the ordered byte sequence emitted by
//! the output commands.  A fuel bound on loop re-entries makes every run
//! finite; a run that hits the bound is reported as unfinished.

use vstd::prelude::*;

use crate::lexer::Commands;
use crate::structurer::ProgramNode;
use crate::structurer::TokenSequence;

verus! {

/// Number of tape cells: one per value of the pointer type, so every pointer
/// value indexes a cell.
pub const TAPE_LEN: usize = 256;

/// The mathematical value of an execution state: the tape and pointer, the
/// input byte sequence with a cursor for what is already consumed, and the
/// output bytes emitted so far.
#[verifier::ext_equal]
pub ghost struct StateV {
    pub ptr: u8,
    pub cells: Seq<u8>,
    pub input: Seq<u8>,
    pub in_pos: int,
    pub output: Seq<u8>,
}

impl StateV {
    /// The tape has exactly one cell per pointer value and the input cursor
    /// lies within the input.
    pub open spec fn wf(self) -> bool {
        self.cells.len() == 256 && 0 <= self.in_pos <= self.input.len()
    }
}

/// A cell value stepped up by one, wrapping modulo `2^8`.
pub open spec fn inc_cell(x: u8) -> u8 {
    if x == 255 {
        0
    } else {
        (x + 1) as u8
    }
}

/// A cell value stepped down by one, wrapping modulo `2^8`.
pub open spec fn dec_cell(x: u8) -> u8 {
    if x == 0 {
        255
    } else {
        (x - 1) as u8
    }
}

/// The state a fresh run starts from: zeroed tape, pointer at cell zero,
/// nothing consumed, nothing emitted.
pub open spec fn init_state(input: Seq<u8>) -> StateV {
    StateV {
        ptr: 0,
        cells: Seq::new(256, |i: int| 0u8),
        input: input,
        in_pos: 0,
        output: Seq::empty(),
    }
}

/// One non-loop command's effect on a state.  A bracket command seen as a
/// leaf (which a well-formed program never holds) changes nothing.
pub open spec fn run_cmd(c: Commands, s: StateV) -> StateV {
    match c {
        Commands::PTR_LEFT => StateV { ptr: dec_cell(s.ptr), ..s },
        Commands::PRT_RIGHT => StateV { ptr: inc_cell(s.ptr), ..s },
        Commands::INCR => StateV {
            cells: s.cells.update(s.ptr as int, inc_cell(s.cells[s.ptr as int])),
            ..s
        },
        Commands::DECR => StateV {
            cells: s.cells.update(s.ptr as int, dec_cell(s.cells[s.ptr as int])),
            ..s
        },
        Commands::OUTP => StateV { output: s.output.push(s.cells[s.ptr as int]), ..s },
        Commands::INPT => if s.in_pos < s.input.len() {
            StateV {
                cells: s.cells.update(s.ptr as int, s.input[s.in_pos]),
                in_pos: s.in_pos + 1,
                ..s
            }
        } else {
            s
        },
        Commands::IF_ZERO => s,
        Commands::JMP_NZERO => s,
    }
}

/// Runs one node to completion.  `fuel` bounds how many times each loop may
/// still re-enter its body; `None` reports that the bound was hit.  A loop
/// whose controlling cell is zero completes at once, whatever the fuel.
pub open spec fn run_node(n: ProgramNode, s: StateV, fuel: nat) -> Option<StateV>
    decreases fuel, n,
{
    match n {
        ProgramNode::Leaf(c) => Some(run_cmd(c, s)),
        ProgramNode::Loop(body) => {
            if s.cells[s.ptr as int] == 0 {
                Some(s)
            } else if fuel == 0 {
                None
            } else {
                match run_nodes(body@, s, (fuel - 1) as nat) {
                    Some(s1) => run_node(n, s1, (fuel - 1) as nat),
                    None => None,
                }
            }
        },
    }
}

/// Runs a node sequence left to right, each node from the state the one
/// before it left.
pub open spec fn run_nodes(ns: Seq<ProgramNode>, s: StateV, fuel: nat) -> Option<StateV>
    decreases fuel, ns,
{
    if ns.len() == 0 {
        Some(s)
    } else {
        match run_node(ns[0], s, fuel) {
            Some(s1) => run_nodes(ns.drop_first(), s1, fuel),
            None => None,
        }
    }
}

/// Every command keeps an execution state well-formed.
pub proof fn lemma_run_cmd_wf(c: Commands, s: StateV)
    requires
        s.wf(),
    ensures
        run_cmd(c, s).wf(),
{
}

/// The main structure for executing code.  Handles and manages the tape,
/// the pointer and the two byte streams of the program being executed.
pub struct BrainFuckExecutor {
    pub ptr: u8,
    pub cells: Vec<u8>,
    pub input: Vec<u8>,
    pub in_pos: usize,
    pub output: Vec<u8>,
}

impl View for BrainFuckExecutor {
    type V = StateV;

    open spec fn view(&self) -> StateV {
        StateV {
            ptr: self.ptr,
            cells: self.cells@,
            input: self.input@,
            in_pos: self.in_pos as int,
            output: self.output@,
        }
    }
}

impl BrainFuckExecutor {
    /// The executor's state is well-formed.
    pub open spec fn wf(self) -> bool {
        self@.wf()
    }

    /// A fresh run over the given input bytes: zeroed tape, pointer at cell
    /// zero, no output yet.
    pub fn new(input: Vec<u8>) -> (r: Self)
        ensures
            r.wf(),
            r@ == init_state(input@),
    {
        let mut cells: Vec<u8> = Vec::new();
        let mut i: usize = 0;
        while i < TAPE_LEN
            invariant
                i <= 256,
                cells@.len() == i,
                forall|j: int| 0 <= j < i ==> cells@[j] == 0u8,
            decreases 256 - i,
        {
            cells.push(0);
            i = i + 1;
        }
        let r = BrainFuckExecutor { ptr: 0, cells, input, in_pos: 0, output: Vec::new() };
        proof {
            assert(r@.cells =~= init_state(r@.input).cells);
            assert(r@ =~= init_state(r@.input));
        }
        r
    }

    /// Performs one non-loop command on the state.
    fn exec_cmd(&mut self, c: Commands)
        requires
            old(self).wf(),
        ensures
            final(self).wf(),
            final(self)@ == run_cmd(c, old(self)@),
    {
        match c {
            Commands::PTR_LEFT => {
                self.ptr = if self.ptr == 0 {
                    255
                } else {
                    self.ptr - 1
                };
            },
            Commands::PRT_RIGHT => {
                self.ptr = if self.ptr == 255 {
                    0
                } else {
                    self.ptr + 1
                };
            },
            Commands::INCR => {
                let p = self.ptr as usize;
                let v = self.cells[p];
                self.cells.set(
                    p,
                    if v == 255 {
                        0
                    } else {
                        v + 1
                    },
                );
            },
            Commands::DECR => {
                let p = self.ptr as usize;
                let v = self.cells[p];
                self.cells.set(
                    p,
                    if v == 0 {
                        255
                    } else {
                        v - 1
                    },
                );
            },
            Commands::OUTP => {
                let p = self.ptr as usize;
                let v = self.cells[p];
                self.output.push(v);
            },
            Commands::INPT => {
                if self.in_pos < self.input.len() {
                    let b = self.input[self.in_pos];
                    let p = self.ptr as usize;
                    self.cells.set(p, b);
                    self.in_pos = self.in_pos + 1;
                }
            },
            Commands::IF_ZERO => {},
            Commands::JMP_NZERO => {},
        }
        proof {
            assert(self@ =~= run_cmd(c, old(self)@));
        }
    }

    /// Runs one node against the state; `false` reports that the fuel bound
    /// was hit and the run is unfinished.
    #[verifier::loop_isolation(false)]
    fn exec_node(&mut self, n: &ProgramNode, fuel: u64) -> (ok: bool)
        requires
            old(self).wf(),
        ensures
            final(self).wf(),
            match run_node(*n, old(self)@, fuel as nat) {
                Some(s) => ok && final(self)@ == s,
                None => !ok,
            },
        decreases fuel, n,
    {
        match n {
            ProgramNode::Leaf(c) => {
                self.exec_cmd(*c);
                true
            },
            ProgramNode::Loop(body) => {
                let mut f: u64 = fuel;
                while self.cells[self.ptr as usize] != 0
                    invariant
                        self.wf(),
                        f <= fuel,
                        run_node(*n, old(self)@, fuel as nat) == run_node(*n, self@, f as nat),
                    decreases f,
                {
                    if f == 0 {
                        return false;
                    }
                    let ghost pre = self@;
                    let ok = self.exec_seq(body, f - 1);
                    proof {
                        assert(run_node(*n, pre, f as nat) == match run_nodes(
                            body@,
                            pre,
                            (f - 1) as nat,
                        ) {
                            Some(s1) => run_node(*n, s1, (f - 1) as nat),
                            None => None,
                        });
                    }
                    if !ok {
                        return false;
                    }
                    f = f - 1;
                }
                true
            },
        }
    }

    /// Runs each node of a sequence in order; `false` reports that the fuel
    /// bound was hit and the run is unfinished.
    #[verifier::loop_isolation(false)]
    fn exec_seq(&mut self, ns: &Vec<ProgramNode>, fuel: u64) -> (ok: bool)
        requires
            old(self).wf(),
        ensures
            final(self).wf(),
            match run_nodes(ns@, old(self)@, fuel as nat) {
                Some(s) => ok && final(self)@ == s,
                None => !ok,
            },
        decreases fuel, ns,
    {
        proof {
            assert(ns@.subrange(0, ns@.len() as int) =~= ns@);
        }
        let mut i: usize = 0;
        while i < ns.len()
            invariant
                i <= ns.len(),
                self.wf(),
                run_nodes(ns@, old(self)@, fuel as nat) == run_nodes(
                    ns@.subrange(i as int, ns@.len() as int),
                    self@,
                    fuel as nat,
                ),
            decreases ns.len() - i,
        {
            let ghost pre = self@;
            proof {
                assert(ns@.subrange(i as int, ns@.len() as int)[0] == ns@[i as int]);
                assert(ns@.subrange(i as int, ns@.len() as int).drop_first() =~= ns@.subrange(
                    i + 1,
                    ns@.len() as int,
                ));
            }
            let ok = self.exec_node(&ns[i], fuel);
            if !ok {
                return false;
            }
            i = i + 1;
        }
        proof {
            assert(ns@.subrange(ns@.len() as int, ns@.len() as int)
                =~= Seq::<ProgramNode>::empty());
        }
        true
    }

    /// Runs a whole program from the current state: to completion, with the
    /// final tape, pointer, input cursor and output left in the executor, or
    /// up to the fuel bound, in which case `false` reports the run
    /// unfinished.
    pub fn run(&mut self, program: &TokenSequence, fuel: u64) -> (ok: bool)
        requires
            old(self).wf(),
        ensures
            final(self).wf(),
            match run_nodes(program.tokens@, old(self)@, fuel as nat) {
                Some(s) => ok && final(self)@ == s,
                None => !ok,
            },
    {
        self.exec_seq(&program.tokens, fuel)
    }
}

/// The cell value after stepping a cell up `n` times.
pub open spec fn iter_inc(x: u8, n: nat) -> u8
    decreases n,
{
    if n == 0 {
        x
    } else {
        inc_cell(iter_inc(x, (n - 1) as nat))
    }
}

/// Stepping a cell up `n` times lands on the sum modulo `2^8`.
proof fn lemma_iter_inc_mod(x: u8, n: nat)
    ensures
        iter_inc(x, n) == ((x + n) % 256) as u8,
    decreases n,
{
    if n == 0 {
    } else {
        lemma_iter_inc_mod(x, (n - 1) as nat);
    }
}

/// Law: cell arithmetic is a cyclic group modulo `2^8` — stepping a cell up
/// `2^8` times returns it to its starting value, and stepping a zero cell
/// down wraps to the largest cell value.
pub proof fn lemma_cell_arith_group(x: u8)
    ensures
        iter_inc(x, 256) == x,
        dec_cell(0u8) == 255u8,
{
    lemma_iter_inc_mod(x, 256);
}

/// Law: pointer arithmetic wraps exactly as cell arithmetic does — moving
/// right from the top address lands on address zero, and moving left from
/// address zero lands on the top address.
pub proof fn lemma_ptr_wraps(s: StateV)
    ensures
        s.ptr == 255 ==> run_cmd(Commands::PRT_RIGHT, s).ptr == 0,
        s.ptr == 0 ==> run_cmd(Commands::PTR_LEFT, s).ptr == 255,
{
}

/// Law: the wrapping cell arithmetic is exactly what the increment and
/// decrement commands perform on the cell under the pointer, which the two
/// cell-arithmetic laws therefore govern.
pub proof fn lemma_cmds_use_cell_arith(s: StateV)
    requires
        s.wf(),
    ensures
        run_cmd(Commands::INCR, s).cells[s.ptr as int] == inc_cell(s.cells[s.ptr as int]),
        run_cmd(Commands::DECR, s).cells[s.ptr as int] == dec_cell(s.cells[s.ptr as int]),
{
}

/// A finished run does not depend on the fuel bound: any larger bound runs
/// one node to the same final state.
pub proof fn lemma_run_node_fuel_mono(n: ProgramNode, s: StateV, f1: nat, f2: nat)
    requires
        f1 <= f2,
        run_node(n, s, f1) is Some,
    ensures
        run_node(n, s, f2) == run_node(n, s, f1),
    decreases f1, n,
{
    match n {
        ProgramNode::Leaf(_) => {},
        ProgramNode::Loop(body) => {
            if s.cells[s.ptr as int] == 0 {
            } else {
                let s1 = run_nodes(body@, s, (f1 - 1) as nat)->Some_0;
                lemma_run_nodes_fuel_mono(body@, s, (f1 - 1) as nat, (f2 - 1) as nat);
                lemma_run_node_fuel_mono(n, s1, (f1 - 1) as nat, (f2 - 1) as nat);
            }
        },
    }
}

/// A finished run does not depend on the fuel bound: any larger bound runs
/// a node sequence to the same final state.
pub proof fn lemma_run_nodes_fuel_mono(ns: Seq<ProgramNode>, s: StateV, f1: nat, f2: nat)
    requires
        f1 <= f2,
        run_nodes(ns, s, f1) is Some,
    ensures
        run_nodes(ns, s, f2) == run_nodes(ns, s, f1),
    decreases f1, ns,
{
    if ns.len() == 0 {
    } else {
        lemma_run_node_fuel_mono(ns[0], s, f1, f2);
        let s1 = run_node(ns[0], s, f1)->Some_0;
        lemma_run_nodes_fuel_mono(ns.drop_first(), s1, f1, f2);
    }
}

/// Law: a loop whose controlling cell is zero executes its body zero times —
/// the state is returned unchanged, whatever the body and the fuel.
pub proof fn lemma_loop_zero_iterations(body: Vec<ProgramNode>, s: StateV, fuel: nat)
    requires
        s.cells[s.ptr as int] == 0,
    ensures
        run_node(ProgramNode::Loop(body), s, fuel) == Some(s),
{
}

} // verus!

