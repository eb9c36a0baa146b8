//! Structuring: the flat command sequence becomes a tree of loop blocks.
//!
//! A single depth-tracked pass copies commands seen at depth zero straight to
//! the output, opens a block when a loop-start raises the depth from zero,
//! and, when the matching loop-end brings the depth back to zero, structures
//! the enclosed span recursively and wraps it in one loop node.  An unmatched
//! loop-end or a still-open loop-start is reported with its exact position.

use vstd::prelude::*;

use crate::lexer::Commands;

verus! {

/// One node of a structured program: a single non-loop command, or a loop
/// block holding, in source order, the nodes between one matched bracket
/// pair (exclusive of the brackets themselves).
#[derive(Debug, PartialEq)]
pub enum ProgramNode {
    Leaf(Commands),
    Loop(Vec<ProgramNode>),
}

/// Why structuring a command sequence failed, with the zero-based position
/// of the offending command.
#[derive(Clone, Copy, Debug, PartialEq, Eq, Structural)]
pub enum BracketMismatch {
    /// A loop-end with no loop-start open at this position.
    UnexpectedClose(usize),
    /// A loop-start at this position that is still open at the end of input.
    UnclosedOpen(usize),
}

/// How one command changes the bracket nesting depth.
pub open spec fn delta(c: Commands) -> int {
    if c == Commands::IF_ZERO {
        1
    } else if c == Commands::JMP_NZERO {
        -1
    } else {
        0
    }
}

/// The bracket nesting depth after reading a whole command sequence.
pub open spec fn depth_of(cs: Seq<Commands>) -> int
    decreases cs.len(),
{
    if cs.len() == 0 {
        0
    } else {
        depth_of(cs.drop_last()) + delta(cs.last())
    }
}

/// No prefix of the sequence closes more loops than it has opened.
pub open spec fn prefix_ok(cs: Seq<Commands>) -> bool {
    forall|i: int| 0 <= i <= cs.len() ==> depth_of(#[trigger] cs.take(i)) >= 0
}

/// Every loop-start has a matching loop-end and vice versa.
pub open spec fn balanced(cs: Seq<Commands>) -> bool {
    prefix_ok(cs) && depth_of(cs) == 0
}

/// Position `p` holds the first loop-end that no open loop-start matches.
pub open spec fn close_err_at(cs: Seq<Commands>, p: int) -> bool {
    &&& 0 <= p < cs.len()
    &&& cs[p] == Commands::JMP_NZERO
    &&& depth_of(cs.take(p)) == 0
    &&& prefix_ok(cs.take(p))
}

/// Position `p` holds the first loop-start that stays open to the end.
pub open spec fn open_err_at(cs: Seq<Commands>, p: int) -> bool {
    &&& 0 <= p < cs.len()
    &&& cs[p] == Commands::IF_ZERO
    &&& depth_of(cs.take(p)) == 0
    &&& prefix_ok(cs)
    &&& forall|j: int| p < j <= cs.len() ==> depth_of(#[trigger] cs.take(j)) > 0
}

/// The command sequence a node prints back to: a leaf is its own command, a
/// loop block is its body between one bracket pair.
pub open spec fn unparse_node(n: ProgramNode) -> Seq<Commands>
    decreases n,
{
    match n {
        ProgramNode::Leaf(c) => seq![c],
        ProgramNode::Loop(body) => seq![Commands::IF_ZERO] + unparse_nodes(body@)
            + seq![Commands::JMP_NZERO],
    }
}

/// The command sequence a node sequence prints back to, in order.
pub open spec fn unparse_nodes(ns: Seq<ProgramNode>) -> Seq<Commands>
    decreases ns,
{
    if ns.len() == 0 {
        Seq::empty()
    } else {
        unparse_nodes(ns.drop_last()) + unparse_node(ns.last())
    }
}

/// A well-formed node holds no bracket command in a leaf.
pub open spec fn wf_node(n: ProgramNode) -> bool
    decreases n,
{
    match n {
        ProgramNode::Leaf(c) => c.not_block_spec(),
        ProgramNode::Loop(body) => wf_nodes(body@),
    }
}

/// Every node of the sequence is well-formed.
pub open spec fn wf_nodes(ns: Seq<ProgramNode>) -> bool
    decreases ns,
{
    forall|i: int| 0 <= i < ns.len() ==> wf_node(#[trigger] ns[i])
}

/// The leaf commands of a node, in source order, brackets excluded.
pub open spec fn flatten_node(n: ProgramNode) -> Seq<Commands>
    decreases n,
{
    match n {
        ProgramNode::Leaf(c) => seq![c],
        ProgramNode::Loop(body) => flatten_nodes(body@),
    }
}

/// The leaf commands of a node sequence, in source order.
pub open spec fn flatten_nodes(ns: Seq<ProgramNode>) -> Seq<Commands>
    decreases ns,
{
    if ns.len() == 0 {
        Seq::empty()
    } else {
        flatten_nodes(ns.drop_last()) + flatten_node(ns.last())
    }
}

/// The sequence with its bracket commands removed.
pub open spec fn non_brackets(cs: Seq<Commands>) -> Seq<Commands>
    decreases cs.len(),
{
    if cs.len() == 0 {
        Seq::empty()
    } else {
        non_brackets(cs.drop_last()) + (if cs.last().not_block_spec() {
            seq![cs.last()]
        } else {
            Seq::empty()
        })
    }
}

/// Taking `k` commands of a subrange is the shorter subrange.
proof fn lemma_subrange_take(s: Seq<Commands>, a: int, b: int, k: int)
    requires
        0 <= a <= b <= s.len(),
        0 <= k <= b - a,
    ensures
        s.subrange(a, b).take(k) == s.subrange(a, a + k),
{
    assert(s.subrange(a, b).take(k) =~= s.subrange(a, a + k));
}

/// Reading one more command adds that command's depth change.
proof fn lemma_depth_step(s: Seq<Commands>, a: int, j: int)
    requires
        0 <= a <= j < s.len(),
    ensures
        depth_of(s.subrange(a, j + 1)) == depth_of(s.subrange(a, j)) + delta(s[j]),
{
    assert(s.subrange(a, j + 1).drop_last() =~= s.subrange(a, j));
    assert(s.subrange(a, j + 1).last() == s[j]);
}

/// Depth is additive over a split of a span.
proof fn lemma_depth_split(s: Seq<Commands>, a: int, m: int, b: int)
    requires
        0 <= a <= m <= b <= s.len(),
    ensures
        depth_of(s.subrange(a, b)) == depth_of(s.subrange(a, m)) + depth_of(s.subrange(m, b)),
    decreases b - m,
{
    if m == b {
        assert(s.subrange(m, b) =~= Seq::<Commands>::empty());
        assert(s.subrange(a, b) == s.subrange(a, m));
    } else {
        lemma_depth_split(s, a, m, b - 1);
        lemma_depth_step(s, a, b - 1);
        lemma_depth_step(s, m, b - 1);
    }
}

/// Removing brackets distributes over concatenation.
proof fn lemma_non_brackets_add(a: Seq<Commands>, b: Seq<Commands>)
    ensures
        non_brackets(a + b) == non_brackets(a) + non_brackets(b),
    decreases b.len(),
{
    if b.len() == 0 {
        assert(a + b =~= a);
        assert(non_brackets(a) + non_brackets(b) =~= non_brackets(a));
    } else {
        lemma_non_brackets_add(a, b.drop_last());
        assert((a + b).drop_last() =~= a + b.drop_last());
        assert((a + b).last() == b.last());
        assert(non_brackets(a + b) =~= non_brackets(a) + non_brackets(b));
    }
}

/// Law: the flattened leaf order of a well-formed node equals the non-bracket
/// command order of the sequence it prints back to.
pub proof fn lemma_flatten_node_is_non_brackets(n: ProgramNode)
    requires
        wf_node(n),
    ensures
        flatten_node(n) == non_brackets(unparse_node(n)),
    decreases n,
{
    match n {
        ProgramNode::Leaf(c) => {
            assert(non_brackets(Seq::<Commands>::empty()) =~= Seq::<Commands>::empty());
            assert(seq![c].drop_last() =~= Seq::<Commands>::empty());
            assert(seq![c].last() == c);
            assert(non_brackets(seq![c]) =~= seq![c]);
        },
        ProgramNode::Loop(body) => {
            lemma_flatten_nodes_is_non_brackets(body@);
            lemma_non_brackets_add(
                seq![Commands::IF_ZERO] + unparse_nodes(body@),
                seq![Commands::JMP_NZERO],
            );
            lemma_non_brackets_add(seq![Commands::IF_ZERO], unparse_nodes(body@));
            assert(non_brackets(Seq::<Commands>::empty()) =~= Seq::<Commands>::empty());
            assert(seq![Commands::IF_ZERO].drop_last() =~= Seq::<Commands>::empty());
            assert(seq![Commands::JMP_NZERO].drop_last() =~= Seq::<Commands>::empty());
            assert(seq![Commands::IF_ZERO].last() == Commands::IF_ZERO);
            assert(seq![Commands::JMP_NZERO].last() == Commands::JMP_NZERO);
            assert(non_brackets(seq![Commands::IF_ZERO]) =~= Seq::<Commands>::empty());
            assert(non_brackets(seq![Commands::JMP_NZERO]) =~= Seq::<Commands>::empty());
            assert(flatten_node(n) =~= non_brackets(unparse_node(n)));
        },
    }
}

/// Law: a correctly structured tree keeps the source's non-bracket commands,
/// as leaves, in source left-to-right order.  Together with the structurer's
/// contract, which gives `unparse_nodes(nodes) == commands` on success, the
/// flattened leaf order of the tree equals the non-bracket command order of
/// the input.
pub proof fn lemma_flatten_nodes_is_non_brackets(ns: Seq<ProgramNode>)
    requires
        wf_nodes(ns),
    ensures
        flatten_nodes(ns) == non_brackets(unparse_nodes(ns)),
    decreases ns,
{
    if ns.len() == 0 {
    } else {
        assert forall|i: int| 0 <= i < ns.drop_last().len() implies wf_node(
            #[trigger] ns.drop_last()[i],
        ) by {
            assert(ns.drop_last()[i] == ns[i]);
        }
        lemma_flatten_nodes_is_non_brackets(ns.drop_last());
        lemma_flatten_node_is_non_brackets(ns.last());
        lemma_non_brackets_add(unparse_nodes(ns.drop_last()), unparse_node(ns.last()));
    }
}

/// A structure for storing a sequence of tokens: the root of a structured
/// program, an implicit top-level block.
pub struct TokenSequence {
    pub tokens: Vec<ProgramNode>,
}

impl TokenSequence {
    /// Creates an empty token sequence.
    pub fn new() -> (r: Self)
        ensures
            r.tokens@.len() == 0,
    {
        Self { tokens: Vec::new() }
    }

    /// Creates a token sequence with a pre-allocated amount of memory.
    pub fn with_capacity(capacity: usize) -> (r: Self)
        ensures
            r.tokens@.len() == 0,
    {
        Self { tokens: Vec::with_capacity(capacity) }
    }

    /// Structures the span `[start, end)` of a command slice.  Success is
    /// owed exactly on a balanced span, and the tree then prints back to the
    /// span; otherwise the error names the first offending position.
    #[verifier::loop_isolation(false)]
    fn divide_range(cmds: &[Commands], start: usize, end: usize) -> (r: Result<
        Vec<ProgramNode>,
        BracketMismatch,
    >)
        requires
            start <= end <= cmds@.len(),
        ensures
            (r is Ok) == balanced(cmds@.subrange(start as int, end as int)),
            match r {
                Ok(nodes) => unparse_nodes(nodes@) == cmds@.subrange(start as int, end as int)
                    && wf_nodes(nodes@),
                Err(BracketMismatch::UnexpectedClose(p)) => start <= p && close_err_at(
                    cmds@.subrange(start as int, end as int),
                    p - start,
                ),
                Err(BracketMismatch::UnclosedOpen(p)) => start <= p && open_err_at(
                    cmds@.subrange(start as int, end as int),
                    p - start,
                ),
            },
        decreases end - start,
    {
        let ghost sub = cmds@.subrange(start as int, end as int);
        let mut res: Vec<ProgramNode> = Vec::new();
        let mut depth: usize = 0;
        let mut body_start: usize = 0;
        let mut i: usize = start;
        while i < end
            invariant
                start <= i <= end,
                depth <= i - start,
                depth as int == depth_of(cmds@.subrange(start as int, i as int)),
                forall|j: int|
                    start <= j <= i ==> depth_of(
                        #[trigger] cmds@.subrange(start as int, j),
                    ) >= 0,
                depth == 0 ==> unparse_nodes(res@) == cmds@.subrange(start as int, i as int),
                depth > 0 ==> start < body_start <= i && cmds@[body_start - 1]
                    == Commands::IF_ZERO && depth_of(cmds@.subrange(start as int, body_start - 1))
                    == 0 && unparse_nodes(res@) == cmds@.subrange(start as int, body_start - 1)
                    && (forall|j: int|
                    body_start <= j <= i ==> depth_of(
                        #[trigger] cmds@.subrange(start as int, j),
                    ) > 0),
                wf_nodes(res@),
            decreases end - i,
        {
            proof {
                lemma_depth_step(cmds@, start as int, i as int);
            }
            let c = cmds[i];
            if depth == 0 {
                if c.not_block() {
                    let ghost prev = res@;
                    res.push(ProgramNode::Leaf(c));
                    proof {
                        assert(res@.drop_last() =~= prev);
                        assert(res@.last() == ProgramNode::Leaf(c));
                        assert(unparse_nodes(res@) == unparse_nodes(prev) + unparse_node(
                            ProgramNode::Leaf(c),
                        ));
                        assert(unparse_node(ProgramNode::Leaf(c)) == seq![c]);
                        assert(unparse_nodes(res@) =~= cmds@.subrange(start as int, i + 1));
                    }
                } else if c == Commands::IF_ZERO {
                    depth = 1;
                    body_start = i + 1;
                } else {
                    proof {
                        assert forall|k: int| 0 <= k <= i - start implies depth_of(
                            #[trigger] cmds@.subrange(start as int, i as int).take(k),
                        ) >= 0 by {
                            lemma_subrange_take(cmds@, start as int, i as int, k);
                        }
                        assert forall|k: int| 0 <= k <= end - start implies depth_of(
                            #[trigger] sub.take(k),
                        ) == depth_of(cmds@.subrange(start as int, start + k)) by {
                            lemma_subrange_take(cmds@, start as int, end as int, k);
                        }
                        assert(sub.take(i - start) =~= cmds@.subrange(start as int, i as int));
                        assert forall|k: int| 0 <= k <= i - start implies depth_of(
                            #[trigger] sub.take(i - start).take(k),
                        ) >= 0 by {
                            assert(sub.take(i - start).take(k) =~= cmds@.subrange(
                                start as int,
                                start + k,
                            ));
                        }
                        assert(depth_of(sub.take(i + 1 - start)) == -1);
                    }
                    return Err(BracketMismatch::UnexpectedClose(i));
                }
            } else {
                if c == Commands::IF_ZERO {
                    depth = depth + 1;
                } else if c == Commands::JMP_NZERO {
                    depth = depth - 1;
                    if depth == 0 {
                        proof {
                            assert forall|k: int| 0 <= k <= i - body_start implies depth_of(
                                #[trigger] cmds@.subrange(body_start as int, i as int).take(k),
                            ) >= 0 by {
                                lemma_subrange_take(cmds@, body_start as int, i as int, k);
                                lemma_depth_step(cmds@, start as int, body_start - 1);
                                lemma_depth_split(
                                    cmds@,
                                    start as int,
                                    body_start as int,
                                    body_start + k,
                                );
                            }
                            lemma_depth_step(cmds@, start as int, body_start - 1);
                            lemma_depth_split(cmds@, start as int, body_start as int, i as int);
                        }
                        let body_nodes = match Self::divide_range(cmds, body_start, i) {
                            Ok(b) => b,
                            Err(e) => {
                                proof {
                                    assert(false);
                                }
                                return Err(e);
                            },
                        };
                        let ghost prev = res@;
                        res.push(ProgramNode::Loop(body_nodes));
                        proof {
                            assert(res@.drop_last() =~= prev);
                            assert(res@.last() == ProgramNode::Loop(body_nodes));
                            assert(unparse_nodes(res@) == unparse_nodes(prev) + unparse_node(
                                ProgramNode::Loop(body_nodes),
                            ));
                            assert(unparse_node(ProgramNode::Loop(body_nodes)) == seq![
                                Commands::IF_ZERO,
                            ] + unparse_nodes(body_nodes@) + seq![Commands::JMP_NZERO]);
                            assert(unparse_nodes(res@) =~= cmds@.subrange(start as int, i + 1));
                        }
                    }
                }
            }
            i = i + 1;
        }
        if depth > 0 {
            proof {
                assert forall|k: int| 0 <= k <= end - start implies depth_of(
                    #[trigger] sub.take(k),
                ) == depth_of(cmds@.subrange(start as int, start + k)) by {
                    lemma_subrange_take(cmds@, start as int, end as int, k);
                }
            }
            return Err(BracketMismatch::UnclosedOpen(body_start - 1));
        }
        proof {
            assert forall|k: int| 0 <= k <= end - start implies depth_of(
                #[trigger] sub.take(k),
            ) >= 0 by {
                lemma_subrange_take(cmds@, start as int, end as int, k);
            }
        }
        Ok(res)
    }

    /// Parses a slice of commands into execution blocks of commands: the
    /// whole slice, structured as one top-level block.
    pub fn divide_cmd_slice(&self, cmd_slice: &[Commands]) -> (r: Result<
        Vec<ProgramNode>,
        BracketMismatch,
    >)
        ensures
            (r is Ok) == balanced(cmd_slice@),
            match r {
                Ok(nodes) => unparse_nodes(nodes@) == cmd_slice@ && wf_nodes(nodes@),
                Err(BracketMismatch::UnexpectedClose(p)) => close_err_at(cmd_slice@, p as int),
                Err(BracketMismatch::UnclosedOpen(p)) => open_err_at(cmd_slice@, p as int),
            },
    {
        proof {
            assert(cmd_slice@.subrange(0, cmd_slice@.len() as int) =~= cmd_slice@);
        }
        Self::divide_range(cmd_slice, 0, cmd_slice.len())
    }

    /// Structures a full command sequence into a token sequence.
    pub fn structure(cmd_slice: &[Commands]) -> (r: Result<TokenSequence, BracketMismatch>)
        ensures
            (r is Ok) == balanced(cmd_slice@),
            match r {
                Ok(ts) => unparse_nodes(ts.tokens@) == cmd_slice@ && wf_nodes(ts.tokens@),
                Err(BracketMismatch::UnexpectedClose(p)) => close_err_at(cmd_slice@, p as int),
                Err(BracketMismatch::UnclosedOpen(p)) => open_err_at(cmd_slice@, p as int),
            },
    {
        let s = TokenSequence::new();
        match s.divide_cmd_slice(cmd_slice) {
            Ok(nodes) => Ok(TokenSequence { tokens: nodes }),
            Err(e) => Err(e),
        }
    }
}

} // verus!
