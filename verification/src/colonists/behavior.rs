use vstd::prelude::*;
use vstd::string::StringExecFns;

verus! {

/// What an actor reports about the task it is running.
#[derive(Clone, Copy, PartialEq, Eq, Debug, Structural)]
pub enum TaskState {
    Executing,
    Success,
    Failed,
}

/// The state of one node of a behavior tree.
#[derive(Clone, Copy, PartialEq, Eq, Debug, Structural)]
pub enum NodeState {
    Success,
    Failed,
    Executing,
    NotStarted,
}

/// What running a tree asks of the world: start a task on the actor, or take it off.
/// A task is named by its index in the behavior's task table.
#[derive(Clone, Copy, PartialEq, Eq, Debug, Structural)]
pub enum TaskCommand {
    Insert(usize),
    Remove(usize),
}

/// The description of a behavior tree.
pub enum BehaviorNode {
    /// Perform the task
    Task(usize),
    /// Try to do the first behavior, if that fails, do the second
    Try(Box<BehaviorNode>, Box<BehaviorNode>),
    /// If the first node succeeds, do the second one, otherwise do the last one
    IfElse(Box<BehaviorNode>, Box<BehaviorNode>, Box<BehaviorNode>),
    /// Return the opposite of the child
    Not(Box<BehaviorNode>),
    /// Visit children sequentially, until one fails or they all succeed
    Sequence(Vec<BehaviorNode>),
    /// Visit children sequentially, until one succeeds, or they all fail
    Select(Vec<BehaviorNode>),
}

/// A behavior tree being run: every node carries its state, sequences and selects the
/// index of the child they are on.
pub enum BehaviorNodeState {
    Task(NodeState, usize),
    Try(NodeState, Box<BehaviorNodeState>, Box<BehaviorNodeState>),
    IfElse(NodeState, Box<BehaviorNodeState>, Box<BehaviorNodeState>, Box<BehaviorNodeState>),
    Not(NodeState, Box<BehaviorNodeState>),
    Sequence(NodeState, Vec<BehaviorNodeState>, usize),
    Select(NodeState, Vec<BehaviorNodeState>, usize),
}

/// The mathematical form of a tree description.
pub enum NodeModel {
    Task(usize),
    Try(Box<NodeModel>, Box<NodeModel>),
    IfElse(Box<NodeModel>, Box<NodeModel>, Box<NodeModel>),
    Not(Box<NodeModel>),
    Sequence(Seq<NodeModel>),
    Select(Seq<NodeModel>),
}

/// The mathematical form of a running tree.
pub enum StateModel {
    Task(NodeState, usize),
    Try(NodeState, Box<StateModel>, Box<StateModel>),
    IfElse(NodeState, Box<StateModel>, Box<StateModel>, Box<StateModel>),
    Not(NodeState, Box<StateModel>),
    Sequence(NodeState, Seq<StateModel>, int),
    Select(NodeState, Seq<StateModel>, int),
}

impl BehaviorNode {
    pub open spec fn model(&self) -> NodeModel
        decreases self,
    {
        match self {
            BehaviorNode::Task(t) => NodeModel::Task(*t),
            BehaviorNode::Try(a, b) => NodeModel::Try(Box::new(a.model()), Box::new(b.model())),
            BehaviorNode::IfElse(c, i, e) => NodeModel::IfElse(
                Box::new(c.model()),
                Box::new(i.model()),
                Box::new(e.model()),
            ),
            BehaviorNode::Not(n) => NodeModel::Not(Box::new(n.model())),
            BehaviorNode::Sequence(v) => NodeModel::Sequence(
                Seq::new(
                    v@.len(),
                    |j: int|
                        if 0 <= j < v@.len() {
                            v@[j].model()
                        } else {
                            NodeModel::Task(0)
                        },
                ),
            ),
            BehaviorNode::Select(v) => NodeModel::Select(
                Seq::new(
                    v@.len(),
                    |j: int|
                        if 0 <= j < v@.len() {
                            v@[j].model()
                        } else {
                            NodeModel::Task(0)
                        },
                ),
            ),
        }
    }
}

/// The models of a sequence of running trees.
pub open spec fn state_models(v: Seq<BehaviorNodeState>) -> Seq<StateModel> {
    Seq::new(v.len(), |j: int| v[j].model())
}

impl BehaviorNodeState {
    pub open spec fn model(&self) -> StateModel
        decreases self,
    {
        match self {
            BehaviorNodeState::Task(s, t) => StateModel::Task(*s, *t),
            BehaviorNodeState::Try(s, a, b) => StateModel::Try(*s, Box::new(a.model()), Box::new(b.model())),
            BehaviorNodeState::IfElse(s, c, i, e) => StateModel::IfElse(
                *s,
                Box::new(c.model()),
                Box::new(i.model()),
                Box::new(e.model()),
            ),
            BehaviorNodeState::Not(s, n) => StateModel::Not(*s, Box::new(n.model())),
            BehaviorNodeState::Sequence(s, v, i) => StateModel::Sequence(
                *s,
                Seq::new(
                    v@.len(),
                    |j: int|
                        if 0 <= j < v@.len() {
                            v@[j].model()
                        } else {
                            StateModel::Task(NodeState::NotStarted, 0)
                        },
                ),
                *i as int,
            ),
            BehaviorNodeState::Select(s, v, i) => StateModel::Select(
                *s,
                Seq::new(
                    v@.len(),
                    |j: int|
                        if 0 <= j < v@.len() {
                            v@[j].model()
                        } else {
                            StateModel::Task(NodeState::NotStarted, 0)
                        },
                ),
                *i as int,
            ),
        }
    }
}

pub open spec fn max_nat(a: nat, b: nat) -> nat {
    if a >= b {
        a
    } else {
        b
    }
}

/// The depth of a running tree.
pub open spec fn height(m: StateModel) -> nat
    decreases m,
{
    match m {
        StateModel::Task(_, _) => 0,
        StateModel::Try(_, a, b) => 1 + max_nat(height(*a), height(*b)),
        StateModel::IfElse(_, c, i, e) => 1 + max_nat(height(*c), max_nat(height(*i), height(*e))),
        StateModel::Not(_, n) => 1 + height(*n),
        StateModel::Sequence(_, v, _) => 1 + heights(v, v.len() as int),
        StateModel::Select(_, v, _) => 1 + heights(v, v.len() as int),
    }
}

/// The greatest depth among the first `n` trees of `v`.
pub open spec fn heights(v: Seq<StateModel>, n: int) -> nat
    decreases v, n,
{
    if n <= 0 || n > v.len() {
        0
    } else {
        max_nat(height(v[n - 1]), heights(v, n - 1))
    }
}

/// The depth of a tree description.
pub open spec fn node_height(m: NodeModel) -> nat
    decreases m,
{
    match m {
        NodeModel::Task(_) => 0,
        NodeModel::Try(a, b) => 1 + max_nat(node_height(*a), node_height(*b)),
        NodeModel::IfElse(c, i, e) => 1 + max_nat(node_height(*c), max_nat(node_height(*i), node_height(*e))),
        NodeModel::Not(n) => 1 + node_height(*n),
        NodeModel::Sequence(v) => 1 + node_heights(v, v.len() as int),
        NodeModel::Select(v) => 1 + node_heights(v, v.len() as int),
    }
}

pub open spec fn node_heights(v: Seq<NodeModel>, n: int) -> nat
    decreases v, n,
{
    if n <= 0 || n > v.len() {
        0
    } else {
        max_nat(node_height(v[n - 1]), node_heights(v, n - 1))
    }
}

pub proof fn lemma_heights_ge(v: Seq<StateModel>, n: int, i: int)
    requires
        0 <= i < n <= v.len(),
    ensures
        height(v[i]) <= heights(v, n),
    decreases n,
{
    if i < n - 1 {
        lemma_heights_ge(v, n - 1, i);
    }
}

pub proof fn lemma_heights_update(v: Seq<StateModel>, n: int, i: int, x: StateModel)
    requires
        0 <= i < v.len(),
        n <= v.len(),
        height(x) == height(v[i]),
    ensures
        heights(v.update(i, x), n) == heights(v, n),
    decreases n,
{
    if n > 0 {
        lemma_heights_update(v, n - 1, i, x);
    }
}

pub proof fn lemma_node_heights_ge(v: Seq<NodeModel>, n: int, i: int)
    requires
        0 <= i < n <= v.len(),
    ensures
        node_height(v[i]) <= node_heights(v, n),
    decreases n,
{
    if i < n - 1 {
        lemma_node_heights_ge(v, n - 1, i);
    }
}

/// The state stored at the root of a running tree.
pub open spec fn state_of(m: StateModel) -> NodeState {
    match m {
        StateModel::Task(s, _) => s,
        StateModel::Try(s, _, _) => s,
        StateModel::IfElse(s, _, _, _) => s,
        StateModel::Not(s, _) => s,
        StateModel::Sequence(s, _, _) => s,
        StateModel::Select(s, _, _) => s,
    }
}

pub open spec fn is_done(s: NodeState) -> bool {
    s == NodeState::Success || s == NodeState::Failed
}

/// How much a node may still re-examine itself within one run before it has to stop.
pub open spec fn rank(m: StateModel) -> nat {
    match m {
        StateModel::Task(_, _) => 0,
        StateModel::Try(_, a, b) => if !is_done(state_of(*a)) {
            2
        } else if !is_done(state_of(*b)) {
            1
        } else {
            0
        },
        StateModel::IfElse(_, c, _, _) => if !is_done(state_of(*c)) {
            1
        } else {
            0
        },
        StateModel::Not(_, n) => if !is_done(state_of(*n)) {
            1
        } else {
            0
        },
        StateModel::Sequence(s, v, i) => list_rank(s, v.len() as int, i),
        StateModel::Select(s, v, i) => list_rank(s, v.len() as int, i),
    }
}

pub open spec fn list_rank(s: NodeState, len: int, i: int) -> nat {
    if s == NodeState::NotStarted {
        (len + 2) as nat
    } else if s == NodeState::Executing && 0 <= i <= len {
        (len - i + 1) as nat
    } else {
        0
    }
}

/// A child run that may be followed by a re-examination of its parent: the child is
/// done and kept its depth.
pub open spec fn settled(before: StateModel, after: StateModel) -> bool {
    height(after) == height(before) && is_done(state_of(after))
}

/// One run of a tree, given what the actor reports about its current task: the tree
/// afterwards, the state it reports, and the commands it issues, in order.
pub open spec fn spec_run(m: StateModel, ts: TaskState) -> (StateModel, NodeState, Seq<TaskCommand>)
    decreases height(m), rank(m),
{
    match m {
        StateModel::Task(s, t) => match s {
            NodeState::NotStarted => (
                StateModel::Task(NodeState::Executing, t),
                NodeState::Executing,
                seq![TaskCommand::Insert(t)],
            ),
            NodeState::Executing => match ts {
                TaskState::Executing => (m, NodeState::Executing, Seq::empty()),
                TaskState::Success => (
                    StateModel::Task(NodeState::Success, t),
                    NodeState::Success,
                    seq![TaskCommand::Remove(t)],
                ),
                TaskState::Failed => (
                    StateModel::Task(NodeState::Failed, t),
                    NodeState::Failed,
                    seq![TaskCommand::Remove(t)],
                ),
            },
            _ => (m, s, Seq::empty()),
        },
        StateModel::Try(s, a, b) => {
            let sa = state_of(*a);
            if sa == NodeState::Success {
                (StateModel::Try(NodeState::Success, a, b), NodeState::Success, Seq::empty())
            } else if sa == NodeState::Failed {
                let sb = state_of(*b);
                if sb == NodeState::Success {
                    (StateModel::Try(NodeState::Success, a, b), NodeState::Success, Seq::empty())
                } else if sb == NodeState::Failed {
                    (StateModel::Try(NodeState::Failed, a, b), NodeState::Failed, Seq::empty())
                } else {
                    let (b2, r, c) = spec_run(*b, ts);
                    let next = StateModel::Try(NodeState::Executing, a, Box::new(b2));
                    if r != NodeState::Executing && settled(*b, b2) {
                        let (n3, r3, c3) = spec_run(next, ts);
                        (n3, r3, c + c3)
                    } else {
                        (next, NodeState::Executing, c)
                    }
                }
            } else {
                let (a2, r, c) = spec_run(*a, ts);
                let next = StateModel::Try(NodeState::Executing, Box::new(a2), b);
                if r != NodeState::Executing && settled(*a, a2) {
                    let (n3, r3, c3) = spec_run(next, ts);
                    (n3, r3, c + c3)
                } else {
                    (next, NodeState::Executing, c)
                }
            }
        },
        StateModel::IfElse(s, c, i, e) => {
            let sc = state_of(*c);
            if sc == NodeState::Success {
                let (i2, r, cmds) = spec_run(*i, ts);
                (StateModel::IfElse(r, c, Box::new(i2), e), r, cmds)
            } else if sc == NodeState::Failed {
                let (e2, r, cmds) = spec_run(*e, ts);
                (StateModel::IfElse(r, c, i, Box::new(e2)), r, cmds)
            } else {
                let (c2, r, cmds) = spec_run(*c, ts);
                if r != NodeState::Executing && settled(*c, c2) {
                    let (n3, r3, c3) = spec_run(StateModel::IfElse(s, Box::new(c2), i, e), ts);
                    (n3, r3, cmds + c3)
                } else {
                    (StateModel::IfElse(NodeState::Executing, Box::new(c2), i, e), NodeState::Executing, cmds)
                }
            }
        },
        StateModel::Not(s, n) => {
            let sn = state_of(*n);
            if sn == NodeState::Success {
                (StateModel::Not(NodeState::Failed, n), NodeState::Failed, Seq::empty())
            } else if sn == NodeState::Failed {
                (StateModel::Not(NodeState::Success, n), NodeState::Success, Seq::empty())
            } else {
                let (n2, r, c) = spec_run(*n, ts);
                if r != NodeState::Executing && settled(*n, n2) {
                    let (n3, r3, c3) = spec_run(StateModel::Not(s, Box::new(n2)), ts);
                    (n3, r3, c + c3)
                } else {
                    (StateModel::Not(NodeState::Executing, Box::new(n2)), NodeState::Executing, c)
                }
            }
        },
        StateModel::Sequence(s, v, idx) => {
            if s == NodeState::Success || s == NodeState::Failed {
                (m, s, Seq::empty())
            } else if s == NodeState::Executing {
                if v.len() == 0 {
                    (StateModel::Sequence(NodeState::Success, v, idx), NodeState::Success, Seq::empty())
                } else if idx < 0 || idx >= v.len() {
                    (StateModel::Sequence(NodeState::Failed, v, idx), NodeState::Failed, Seq::empty())
                } else {
                    proof {
                        lemma_heights_ge(v, v.len() as int, idx);
                    }
                    let (ch, r, c) = spec_run(v[idx], ts);
                    let v2 = v.update(idx, ch);
                    if r == NodeState::Success {
                        if idx + 1 >= v2.len() {
                            (StateModel::Sequence(NodeState::Success, v2, idx + 1), NodeState::Success, c)
                        } else if height(ch) == height(v[idx]) {
                            proof {
                                lemma_heights_update(v, v.len() as int, idx, ch);
                            }
                            let (n3, r3, c3) = spec_run(StateModel::Sequence(NodeState::Executing, v2, idx + 1), ts);
                            (n3, r3, c + c3)
                        } else {
                            (StateModel::Sequence(NodeState::Executing, v2, idx + 1), NodeState::Executing, c)
                        }
                    } else if r == NodeState::Executing {
                        (StateModel::Sequence(NodeState::Executing, v2, idx), NodeState::Executing, c)
                    } else {
                        (StateModel::Sequence(NodeState::Failed, v2, idx), NodeState::Failed, c)
                    }
                }
            } else {
                spec_run(StateModel::Sequence(NodeState::Executing, v, 0), ts)
            }
        },
        StateModel::Select(s, v, idx) => {
            if s == NodeState::Success || s == NodeState::Failed {
                (m, s, Seq::empty())
            } else if s == NodeState::Executing {
                if idx < 0 || idx >= v.len() {
                    (StateModel::Select(NodeState::Failed, v, idx), NodeState::Failed, Seq::empty())
                } else {
                    proof {
                        lemma_heights_ge(v, v.len() as int, idx);
                    }
                    let (ch, r, c) = spec_run(v[idx], ts);
                    let v2 = v.update(idx, ch);
                    if r == NodeState::Failed {
                        if idx + 1 >= v2.len() {
                            (StateModel::Select(NodeState::Failed, v2, idx + 1), NodeState::Failed, c)
                        } else if height(ch) == height(v[idx]) {
                            proof {
                                lemma_heights_update(v, v.len() as int, idx, ch);
                            }
                            let (n3, r3, c3) = spec_run(StateModel::Select(NodeState::Executing, v2, idx + 1), ts);
                            (n3, r3, c + c3)
                        } else {
                            (StateModel::Select(NodeState::Executing, v2, idx + 1), NodeState::Executing, c)
                        }
                    } else if r == NodeState::Executing {
                        (StateModel::Select(NodeState::Executing, v2, idx), NodeState::Executing, c)
                    } else if r == NodeState::Success {
                        (StateModel::Select(NodeState::Success, v2, idx), NodeState::Success, c)
                    } else {
                        (StateModel::Select(NodeState::Failed, v2, idx), NodeState::Failed, c)
                    }
                }
            } else {
                spec_run(StateModel::Select(NodeState::Executing, v, 0), ts)
            }
        },
    }
}

/// Running a tree never reports `NotStarted`, leaves the reported state at the root,
/// and keeps the tree's depth.
pub proof fn lemma_run_props(m: StateModel, ts: TaskState)
    ensures
        run_props(m, ts),
    decreases height(m), rank(m), 1nat,
{
    match m {
        StateModel::Task(_, _) => {},
        StateModel::Try(_, _, _) => lemma_run_try(m, ts),
        StateModel::IfElse(_, _, _, _) => lemma_run_if_else(m, ts),
        StateModel::Not(_, _) => lemma_run_not(m, ts),
        StateModel::Sequence(_, _, _) => lemma_run_sequence(m, ts),
        StateModel::Select(_, _, _) => lemma_run_select(m, ts),
    }
}

pub open spec fn run_props(m: StateModel, ts: TaskState) -> bool {
    &&& spec_run(m, ts).1 != NodeState::NotStarted
    &&& state_of(spec_run(m, ts).0) == spec_run(m, ts).1
    &&& height(spec_run(m, ts).0) == height(m)
}

proof fn lemma_run_try(m: StateModel, ts: TaskState)
    requires
        m is Try,
    ensures
        run_props(m, ts),
    decreases height(m), rank(m), 0nat,
{
    if let StateModel::Try(s, a, b) = m {
        let sa = state_of(*a);
        if sa == NodeState::Success {
        } else if sa == NodeState::Failed {
            let sb = state_of(*b);
            if sb != NodeState::Success && sb != NodeState::Failed {
                lemma_run_props(*b, ts);
                let (b2, r, c) = spec_run(*b, ts);
                if r != NodeState::Executing {
                    lemma_run_props(StateModel::Try(NodeState::Executing, a, Box::new(b2)), ts);
                }
            }
        } else {
            lemma_run_props(*a, ts);
            let (a2, r, c) = spec_run(*a, ts);
            if r != NodeState::Executing {
                lemma_run_props(StateModel::Try(NodeState::Executing, Box::new(a2), b), ts);
            }
        }
    }
}

proof fn lemma_run_if_else(m: StateModel, ts: TaskState)
    requires
        m is IfElse,
    ensures
        run_props(m, ts),
    decreases height(m), rank(m), 0nat,
{
    if let StateModel::IfElse(s, c, i, e) = m {
        let sc = state_of(*c);
        if sc == NodeState::Success {
            lemma_run_props(*i, ts);
        } else if sc == NodeState::Failed {
            lemma_run_props(*e, ts);
        } else {
            lemma_run_props(*c, ts);
            let (c2, r, cmds) = spec_run(*c, ts);
            if r != NodeState::Executing {
                lemma_run_props(StateModel::IfElse(s, Box::new(c2), i, e), ts);
            }
        }
    }
}

proof fn lemma_run_not(m: StateModel, ts: TaskState)
    requires
        m is Not,
    ensures
        run_props(m, ts),
    decreases height(m), rank(m), 0nat,
{
    if let StateModel::Not(s, n) = m {
        let sn = state_of(*n);
        if sn != NodeState::Success && sn != NodeState::Failed {
            lemma_run_props(*n, ts);
            let (n2, r, c) = spec_run(*n, ts);
            if r != NodeState::Executing {
                lemma_run_props(StateModel::Not(s, Box::new(n2)), ts);
            }
        }
    }
}

proof fn lemma_run_sequence(m: StateModel, ts: TaskState)
    requires
        m is Sequence,
    ensures
        run_props(m, ts),
    decreases height(m), rank(m), 0nat,
{
    if let StateModel::Sequence(s, v, idx) = m {
        if s == NodeState::Executing {
            if 0 <= idx < v.len() {
                lemma_heights_ge(v, v.len() as int, idx);
                lemma_run_props(v[idx], ts);
                let (ch, r, c) = spec_run(v[idx], ts);
                lemma_heights_update(v, v.len() as int, idx, ch);
                if r == NodeState::Success && idx + 1 < v.len() {
                    lemma_run_props(StateModel::Sequence(NodeState::Executing, v.update(idx, ch), idx + 1), ts);
                }
            }
        } else if s == NodeState::NotStarted {
            lemma_run_props(StateModel::Sequence(NodeState::Executing, v, 0), ts);
        }
    }
}

proof fn lemma_run_select(m: StateModel, ts: TaskState)
    requires
        m is Select,
    ensures
        run_props(m, ts),
    decreases height(m), rank(m), 0nat,
{
    if let StateModel::Select(s, v, idx) = m {
        if s == NodeState::Executing {
            if 0 <= idx < v.len() {
                lemma_heights_ge(v, v.len() as int, idx);
                lemma_run_props(v[idx], ts);
                let (ch, r, c) = spec_run(v[idx], ts);
                lemma_heights_update(v, v.len() as int, idx, ch);
                if r == NodeState::Failed && idx + 1 < v.len() {
                    lemma_run_props(StateModel::Select(NodeState::Executing, v.update(idx, ch), idx + 1), ts);
                }
            }
        } else if s == NodeState::NotStarted {
            lemma_run_props(StateModel::Select(NodeState::Executing, v, 0), ts);
        }
    }
}

/// The running form of a tree description: every node not started, sequences and
/// selects on their first child.
pub open spec fn spec_new(n: NodeModel) -> StateModel
    decreases n,
{
    match n {
        NodeModel::Task(t) => StateModel::Task(NodeState::NotStarted, t),
        NodeModel::Try(a, b) => StateModel::Try(NodeState::NotStarted, Box::new(spec_new(*a)), Box::new(spec_new(*b))),
        NodeModel::IfElse(c, i, e) => StateModel::IfElse(
            NodeState::NotStarted,
            Box::new(spec_new(*c)),
            Box::new(spec_new(*i)),
            Box::new(spec_new(*e)),
        ),
        NodeModel::Not(c) => StateModel::Not(NodeState::NotStarted, Box::new(spec_new(*c))),
        NodeModel::Sequence(v) => StateModel::Sequence(
            NodeState::NotStarted,
            spec_new_list(v),
            0,
        ),
        NodeModel::Select(v) => StateModel::Select(
            NodeState::NotStarted,
            spec_new_list(v),
            0,
        ),
    }
}

/// A running tree put back to the start: every node not started, sequences and selects
/// on their first child, the tasks and the structure unchanged.
pub open spec fn spec_reset(m: StateModel) -> StateModel
    decreases m,
{
    match m {
        StateModel::Task(_, t) => StateModel::Task(NodeState::NotStarted, t),
        StateModel::Try(_, a, b) => StateModel::Try(NodeState::NotStarted, Box::new(spec_reset(*a)), Box::new(spec_reset(*b))),
        StateModel::IfElse(_, c, i, e) => StateModel::IfElse(
            NodeState::NotStarted,
            Box::new(spec_reset(*c)),
            Box::new(spec_reset(*i)),
            Box::new(spec_reset(*e)),
        ),
        StateModel::Not(_, c) => StateModel::Not(NodeState::NotStarted, Box::new(spec_reset(*c))),
        StateModel::Sequence(_, v, _) => StateModel::Sequence(
            NodeState::NotStarted,
            spec_reset_list(v),
            0,
        ),
        StateModel::Select(_, v, _) => StateModel::Select(
            NodeState::NotStarted,
            spec_reset_list(v),
            0,
        ),
    }
}

pub open spec fn spec_reset_list(v: Seq<StateModel>) -> Seq<StateModel>
    decreases v,
{
    Seq::new(
        v.len(),
        |j: int|
            if 0 <= j < v.len() {
                spec_reset(v[j])
            } else {
                StateModel::Task(NodeState::NotStarted, 0)
            },
    )
}

pub open spec fn spec_new_list(v: Seq<NodeModel>) -> Seq<StateModel>
    decreases v,
{
    Seq::new(
        v.len(),
        |j: int|
            if 0 <= j < v.len() {
                spec_new(v[j])
            } else {
                StateModel::Task(NodeState::NotStarted, 0)
            },
    )
}

/// Resetting twice is resetting once: a reset tree is already at the start.
pub proof fn lemma_reset_idempotent(m: StateModel)
    ensures
        spec_reset(spec_reset(m)) == spec_reset(m),
        state_of(spec_reset(m)) == NodeState::NotStarted,
    decreases m,
{
    match m {
        StateModel::Task(_, _) => {},
        StateModel::Try(_, a, b) => {
            lemma_reset_idempotent(*a);
            lemma_reset_idempotent(*b);
        },
        StateModel::IfElse(_, c, i, e) => {
            lemma_reset_idempotent(*c);
            lemma_reset_idempotent(*i);
            lemma_reset_idempotent(*e);
        },
        StateModel::Not(_, c) => {
            lemma_reset_idempotent(*c);
        },
        StateModel::Sequence(_, v, _) => {
            lemma_reset_list_idempotent(v);
        },
        StateModel::Select(_, v, _) => {
            lemma_reset_list_idempotent(v);
        },
    }
}

proof fn lemma_reset_list_idempotent(v: Seq<StateModel>)
    ensures
        spec_reset_list(spec_reset_list(v)) == spec_reset_list(v),
    decreases v,
{
    let w = spec_reset_list(v);
    assert forall|j: int| 0 <= j < w.len() implies #[trigger] spec_reset(w[j]) == w[j] by {
        lemma_reset_idempotent(v[j]);
    }
    lemma_reset_list_fixed(w);
}

proof fn lemma_reset_list_fixed(w: Seq<StateModel>)
    requires
        forall|j: int| 0 <= j < w.len() ==> #[trigger] spec_reset(w[j]) == w[j],
    ensures
        spec_reset_list(w) == w,
{
    assert forall|j: int| 0 <= j < w.len() implies spec_reset_list(w)[j] == w[j] by {
        assert(spec_reset_list(w)[j] == spec_reset(w[j]));
    }
    assert(spec_reset_list(w) =~= w);
}

/// A freshly built tree is already reset.
pub proof fn lemma_new_is_reset(n: NodeModel)
    ensures
        spec_reset(spec_new(n)) == spec_new(n),
    decreases n,
{
    match n {
        NodeModel::Task(_) => {},
        NodeModel::Try(a, b) => {
            lemma_new_is_reset(*a);
            lemma_new_is_reset(*b);
        },
        NodeModel::IfElse(c, i, e) => {
            lemma_new_is_reset(*c);
            lemma_new_is_reset(*i);
            lemma_new_is_reset(*e);
        },
        NodeModel::Not(c) => {
            lemma_new_is_reset(*c);
        },
        NodeModel::Sequence(v) => {
            lemma_new_list_is_reset(v);
        },
        NodeModel::Select(v) => {
            lemma_new_list_is_reset(v);
        },
    }
}

proof fn lemma_new_list_is_reset(v: Seq<NodeModel>)
    ensures
        spec_reset_list(spec_new_list(v)) == spec_new_list(v),
    decreases v,
{
    let w = spec_new_list(v);
    assert forall|j: int| 0 <= j < w.len() implies #[trigger] spec_reset(w[j]) == w[j] by {
        lemma_new_is_reset(v[j]);
    }
    lemma_reset_list_fixed(w);
}

/// `m` has not been run since it was built or reset: all its nodes are not started and
/// its sequences and selects are on their first child.
pub open spec fn untouched(m: StateModel) -> bool {
    spec_reset(m) == m
}

/// The shape every tree keeps from being built through any number of runs:
/// - a `Try` has not touched its fallback while its first child has not failed; it has
///   succeeded only through a child that succeeded, failed only when both failed, and runs
///   only while the child it is on has not finished;
/// - an `IfElse` has not touched the branch its condition did not pick; once done it
///   reports what that branch reported, and it runs only while the condition or the
///   picked branch has not finished;
/// - a `Not` reports the opposite of its finished child and runs only while the child
///   runs;
/// - a node not yet started has not touched its first child;
/// - a sequence has succeeded in every child before its index and not touched any after
///   it; it succeeds only past its last child and fails only at a child that failed;
/// - a select, likewise, with success and failure swapped.
pub open spec fn consistent(m: StateModel) -> bool
    decreases m,
{
    match m {
        StateModel::Task(_, _) => true,
        StateModel::Try(s, a, b) => {
            &&& consistent(*a)
            &&& consistent(*b)
            &&& state_of(*a) != NodeState::Failed ==> untouched(*b)
            &&& s == NodeState::Success ==> state_of(*a) == NodeState::Success || (state_of(*a) == NodeState::Failed && state_of(*b)
                == NodeState::Success)
            &&& s == NodeState::Failed ==> state_of(*a) == NodeState::Failed && state_of(*b) == NodeState::Failed
            &&& s == NodeState::Executing ==> !is_done(state_of(*a)) || (state_of(*a) == NodeState::Failed && !is_done(state_of(*b)))
            &&& s == NodeState::NotStarted ==> untouched(*a)
        },
        StateModel::IfElse(s, c, i, e) => {
            &&& consistent(*c)
            &&& consistent(*i)
            &&& consistent(*e)
            &&& state_of(*c) != NodeState::Success ==> untouched(*i)
            &&& state_of(*c) != NodeState::Failed ==> untouched(*e)
            &&& is_done(s) ==> (state_of(*c) == NodeState::Success && state_of(*i) == s) || (state_of(*c) == NodeState::Failed
                && state_of(*e) == s)
            &&& s == NodeState::Executing ==> !is_done(state_of(*c)) || (state_of(*c) == NodeState::Success && !is_done(state_of(*i)))
                || (state_of(*c) == NodeState::Failed && !is_done(state_of(*e)))
            &&& s == NodeState::NotStarted ==> untouched(*c)
        },
        StateModel::Not(s, n) => {
            &&& consistent(*n)
            &&& s == NodeState::Success ==> state_of(*n) == NodeState::Failed
            &&& s == NodeState::Failed ==> state_of(*n) == NodeState::Success
            &&& s == NodeState::Executing ==> !is_done(state_of(*n))
            &&& s == NodeState::NotStarted ==> untouched(*n)
        },
        StateModel::Sequence(s, v, idx) => {
            &&& list_consistent(v)
            &&& list_order(s, v, idx, NodeState::Success)
        },
        StateModel::Select(s, v, idx) => {
            &&& list_consistent(v)
            &&& list_order(s, v, idx, NodeState::Failed)
        },
    }
}

/// Every tree of `v` is consistent.
pub open spec fn list_consistent(v: Seq<StateModel>) -> bool
    decreases v,
{
    forall|j: int| 0 <= j < v.len() ==> consistent(#[trigger] v[j])
}

/// The children of a sequence (`go` is `Success`) or select (`go` is `Failed`) in state
/// `s` on child `idx`: those before it ended with `go`, those after it are untouched; while
/// it runs, the child it is on has not finished; it ends with `go` only past its last child
/// and otherwise only at a child that ended so.
pub open spec fn list_order(s: NodeState, v: Seq<StateModel>, idx: int, go: NodeState) -> bool {
    &&& 0 <= idx <= v.len()
    &&& forall|j: int| 0 <= j < idx ==> state_of(#[trigger] v[j]) == go
    &&& forall|j: int| idx < j < v.len() ==> untouched(#[trigger] v[j])
    &&& s == NodeState::NotStarted ==> idx == 0 && (v.len() > 0 ==> untouched(v[0]))
    &&& s == NodeState::Executing ==> v.len() == 0 || (idx < v.len() && !is_done(state_of(v[idx])))
    &&& is_done(s) && s == go ==> idx == v.len()
    &&& is_done(s) && s != go ==> idx < v.len() && state_of(v[idx]) == s
}

/// An untouched tree is not started.
proof fn lemma_untouched_not_started(m: StateModel)
    requires
        untouched(m),
    ensures
        state_of(m) == NodeState::NotStarted,
{
    lemma_reset_idempotent(m);
}

/// A freshly built tree is consistent.
pub proof fn lemma_new_is_consistent(n: NodeModel)
    ensures
        consistent(spec_new(n)),
    decreases n,
{
    lemma_new_is_reset(n);
    match n {
        NodeModel::Task(_) => {},
        NodeModel::Try(a, b) => {
            lemma_new_is_consistent(*a);
            lemma_new_is_consistent(*b);
            lemma_new_is_reset(*b);
        },
        NodeModel::IfElse(c, i, e) => {
            lemma_new_is_consistent(*c);
            lemma_new_is_consistent(*i);
            lemma_new_is_consistent(*e);
            lemma_new_is_reset(*i);
            lemma_new_is_reset(*e);
        },
        NodeModel::Not(c) => {
            lemma_new_is_consistent(*c);
        },
        NodeModel::Sequence(v) => {
            lemma_new_list_consistent(v);
        },
        NodeModel::Select(v) => {
            lemma_new_list_consistent(v);
        },
    }
}

proof fn lemma_new_list_consistent(v: Seq<NodeModel>)
    ensures
        list_consistent(spec_new_list(v)),
        forall|j: int| 0 <= j < v.len() ==> untouched(#[trigger] spec_new_list(v)[j]),
    decreases v,
{
    let w = spec_new_list(v);
    assert forall|j: int| 0 <= j < w.len() implies consistent(#[trigger] w[j]) && untouched(w[j]) by {
        lemma_new_is_consistent(v[j]);
        lemma_new_is_reset(v[j]);
    }
}

/// A run keeps a consistent tree consistent and keeps what a reset gives back: its
/// structure and tasks.
pub proof fn lemma_run_keeps(m: StateModel, ts: TaskState)
    requires
        consistent(m),
    ensures
        consistent(spec_run(m, ts).0),
        spec_reset(spec_run(m, ts).0) == spec_reset(m),
    decreases height(m), rank(m), 1nat,
{
    match m {
        StateModel::Task(_, _) => {},
        StateModel::Try(_, _, _) => lemma_run_keeps_try(m, ts),
        StateModel::IfElse(_, _, _, _) => lemma_run_keeps_if_else(m, ts),
        StateModel::Not(_, _) => lemma_run_keeps_not(m, ts),
        StateModel::Sequence(_, _, _) => lemma_run_keeps_list(m, ts, NodeState::Success),
        StateModel::Select(_, _, _) => lemma_run_keeps_list(m, ts, NodeState::Failed),
    }
}

proof fn lemma_run_keeps_try(m: StateModel, ts: TaskState)
    requires
        consistent(m),
        m is Try,
    ensures
        consistent(spec_run(m, ts).0),
        spec_reset(spec_run(m, ts).0) == spec_reset(m),
    decreases height(m), rank(m), 0nat,
{
    lemma_run_props(m, ts);
    if let StateModel::Try(s, a, b) = m {
        let sa = state_of(*a);
        if sa == NodeState::Success {
        } else if sa == NodeState::Failed {
            let sb = state_of(*b);
            if sb != NodeState::Success && sb != NodeState::Failed {
                lemma_run_props(*b, ts);
                lemma_run_keeps(*b, ts);
                let (b2, rb, cb) = spec_run(*b, ts);
                if rb != NodeState::Executing {
                    assert(spec_run(StateModel::Try(NodeState::Executing, a, Box::new(b2)), ts) == (
                        StateModel::Try(rb, a, Box::new(b2)),
                        rb,
                        Seq::<TaskCommand>::empty(),
                    ));
                }
            }
        } else {
            lemma_run_props(*a, ts);
            lemma_run_keeps(*a, ts);
            let (a2, r, c) = spec_run(*a, ts);
            if s == NodeState::NotStarted {
                lemma_untouched_not_started(*a);
            }
            if r == NodeState::Success {
                assert(spec_run(StateModel::Try(NodeState::Executing, Box::new(a2), b), ts) == (
                    StateModel::Try(NodeState::Success, Box::new(a2), b),
                    NodeState::Success,
                    Seq::<TaskCommand>::empty(),
                ));
            } else if r == NodeState::Failed {
                lemma_untouched_not_started(*b);
                lemma_run_props(*b, ts);
                lemma_run_keeps(*b, ts);
                let (b2, rb, cb) = spec_run(*b, ts);
                let a2b = Box::new(a2);
                if rb != NodeState::Executing {
                    assert(spec_run(StateModel::Try(NodeState::Executing, a2b, Box::new(b2)), ts) == (
                        StateModel::Try(rb, a2b, Box::new(b2)),
                        rb,
                        Seq::<TaskCommand>::empty(),
                    ));
                    assert(spec_run(StateModel::Try(NodeState::Executing, a2b, b), ts) == (
                        StateModel::Try(rb, a2b, Box::new(b2)),
                        rb,
                        cb + Seq::<TaskCommand>::empty(),
                    ));
                } else {
                    assert(spec_run(StateModel::Try(NodeState::Executing, a2b, b), ts) == (
                        StateModel::Try(NodeState::Executing, a2b, Box::new(b2)),
                        NodeState::Executing,
                        cb,
                    ));
                }
            }
        }
    }
}

proof fn lemma_run_keeps_if_else(m: StateModel, ts: TaskState)
    requires
        consistent(m),
        m is IfElse,
    ensures
        consistent(spec_run(m, ts).0),
        spec_reset(spec_run(m, ts).0) == spec_reset(m),
    decreases height(m), rank(m), 0nat,
{
    lemma_run_props(m, ts);
    if let StateModel::IfElse(s, c, i, e) = m {
        let sc = state_of(*c);
        if sc == NodeState::Success {
            lemma_run_props(*i, ts);
            lemma_run_keeps(*i, ts);
        } else if sc == NodeState::Failed {
            lemma_run_props(*e, ts);
            lemma_run_keeps(*e, ts);
        } else {
            lemma_run_props(*c, ts);
            lemma_run_keeps(*c, ts);
            let (c2, r, cmds) = spec_run(*c, ts);
            if s == NodeState::NotStarted {
                lemma_untouched_not_started(*c);
            }
            if r == NodeState::Success {
                lemma_untouched_not_started(*i);
                lemma_run_props(*i, ts);
                lemma_run_keeps(*i, ts);
                let (i2, ri, ci) = spec_run(*i, ts);
                assert(spec_run(StateModel::IfElse(s, Box::new(c2), i, e), ts) == (
                    StateModel::IfElse(ri, Box::new(c2), Box::new(i2), e),
                    ri,
                    ci,
                ));
            } else if r == NodeState::Failed {
                lemma_untouched_not_started(*e);
                lemma_run_props(*e, ts);
                lemma_run_keeps(*e, ts);
                let (e2, re, ce) = spec_run(*e, ts);
                assert(spec_run(StateModel::IfElse(s, Box::new(c2), i, e), ts) == (
                    StateModel::IfElse(re, Box::new(c2), i, Box::new(e2)),
                    re,
                    ce,
                ));
            }
        }
    }
}

proof fn lemma_run_keeps_not(m: StateModel, ts: TaskState)
    requires
        consistent(m),
        m is Not,
    ensures
        consistent(spec_run(m, ts).0),
        spec_reset(spec_run(m, ts).0) == spec_reset(m),
    decreases height(m), rank(m), 0nat,
{
    lemma_run_props(m, ts);
    if let StateModel::Not(s, n) = m {
        let sn = state_of(*n);
        if sn != NodeState::Success && sn != NodeState::Failed {
            lemma_run_props(*n, ts);
            lemma_run_keeps(*n, ts);
            let (n2, r, c) = spec_run(*n, ts);
            if s == NodeState::NotStarted {
                lemma_untouched_not_started(*n);
            }
            if r == NodeState::Success {
                assert(spec_run(StateModel::Not(s, Box::new(n2)), ts) == (
                    StateModel::Not(NodeState::Failed, Box::new(n2)),
                    NodeState::Failed,
                    Seq::<TaskCommand>::empty(),
                ));
            } else if r == NodeState::Failed {
                assert(spec_run(StateModel::Not(s, Box::new(n2)), ts) == (
                    StateModel::Not(NodeState::Success, Box::new(n2)),
                    NodeState::Success,
                    Seq::<TaskCommand>::empty(),
                ));
            }
        }
    }
}

/// `lemma_run_keeps` for sequences and selects.
proof fn lemma_run_keeps_list(m: StateModel, ts: TaskState, go: NodeState)
    requires
        consistent(m),
        go == NodeState::Success ==> m is Sequence,
        go == NodeState::Failed ==> m is Select,
        go == NodeState::Success || go == NodeState::Failed,
    ensures
        consistent(spec_run(m, ts).0),
        spec_reset(spec_run(m, ts).0) == spec_reset(m),
    decreases height(m), rank(m), 0nat,
{
    let (s, v, idx) = match m {
        StateModel::Sequence(s, v, idx) => (s, v, idx),
        StateModel::Select(s, v, idx) => (s, v, idx),
        _ => (NodeState::NotStarted, Seq::empty(), 0),
    };
    let mk = |st: NodeState, w: Seq<StateModel>, k: int|
        if go == NodeState::Success {
            StateModel::Sequence(st, w, k)
        } else {
            StateModel::Select(st, w, k)
        };
    assert(m == mk(s, v, idx));
    assert(list_consistent(v) && list_order(s, v, idx, go));
    if s == NodeState::Executing {
        if v.len() == 0 || idx < 0 || idx >= v.len() {
            assert(spec_reset_list(v) == spec_reset_list(v));
        } else {
            lemma_heights_ge(v, v.len() as int, idx);
            lemma_run_props(v[idx], ts);
            assert(consistent(v[idx]));
            lemma_run_keeps(v[idx], ts);
            let (ch, r, c) = spec_run(v[idx], ts);
            let v2 = v.update(idx, ch);
            lemma_heights_update(v, v.len() as int, idx, ch);
            assert(spec_reset_list(v2) =~= spec_reset_list(v));
            assert forall|j: int| 0 <= j < v2.len() implies consistent(#[trigger] v2[j]) by {
                if j != idx {
                    assert(v2[j] == v[j]);
                    assert(consistent(v[j]));
                }
            }
            assert(list_consistent(v2));
            assert forall|j: int| 0 <= j < idx implies state_of(#[trigger] v2[j]) == go by {
                assert(v2[j] == v[j]);
            }
            assert forall|j: int| idx + 1 < j < v2.len() implies untouched(#[trigger] v2[j]) by {
                assert(v2[j] == v[j]);
            }
            if r == go && idx + 1 < v2.len() {
                assert(untouched(v2[idx + 1])) by {
                    assert(v2[idx + 1] == v[idx + 1]);
                }
                assert forall|j: int| idx + 1 < j < v2.len() implies untouched(#[trigger] v2[j]) by {
                    assert(v2[j] == v[j]);
                }
                assert(consistent(mk(NodeState::Executing, v2, idx + 1)));
                lemma_run_keeps(mk(NodeState::Executing, v2, idx + 1), ts);
            } else {
                assert forall|j: int| idx < j < v2.len() implies untouched(#[trigger] v2[j]) by {
                    assert(v2[j] == v[j]);
                }
            }
        }
    } else if s == NodeState::NotStarted {
        assert(consistent(mk(NodeState::Executing, v, 0)));
        lemma_run_keeps(mk(NodeState::Executing, v, 0), ts);
    }
}

/// A finished node of a consistent tree reports its result again on every later run,
/// issues no commands and stays as it is.
pub proof fn lemma_done_is_stable(m: StateModel, ts: TaskState)
    requires
        consistent(m),
        is_done(state_of(m)),
    ensures
        spec_run(m, ts) == (m, state_of(m), Seq::<TaskCommand>::empty()),
    decreases m,
{
    match m {
        StateModel::IfElse(s, c, i, e) => {
            if state_of(*c) == NodeState::Success {
                lemma_done_is_stable(*i, ts);
            } else {
                lemma_done_is_stable(*e, ts);
            }
        },
        _ => {},
    }
}

/// In a consistent tree a `Try` has succeeded exactly when its first child succeeded, or
/// failed and its fallback succeeded, and has failed exactly when both failed; an `IfElse`
/// reports what the branch its condition picked reported once that branch is done, and is
/// not done while its condition runs; a `Not` reports the opposite of its finished child
/// and is not done while the child runs.
pub proof fn lemma_node_result(m: StateModel)
    requires
        consistent(m),
    ensures
        m matches StateModel::Try(s, a, b) ==> {
            &&& s == NodeState::Success <==> (state_of(*a) == NodeState::Success || (state_of(*a) == NodeState::Failed
                && state_of(*b) == NodeState::Success))
            &&& s == NodeState::Failed <==> (state_of(*a) == NodeState::Failed && state_of(*b) == NodeState::Failed)
        },
        m matches StateModel::IfElse(s, c, i, e) ==> {
            &&& state_of(*c) == NodeState::Success && is_done(state_of(*i)) ==> s == state_of(*i)
            &&& state_of(*c) == NodeState::Failed && is_done(state_of(*e)) ==> s == state_of(*e)
            &&& !is_done(state_of(*c)) ==> !is_done(s)
        },
        m matches StateModel::Not(s, n) ==> {
            &&& state_of(*n) == NodeState::Success ==> s == NodeState::Failed
            &&& state_of(*n) == NodeState::Failed ==> s == NodeState::Success
            &&& !is_done(state_of(*n)) ==> !is_done(s)
        },
{
    match m {
        StateModel::Try(s, a, b) => {
            if s == NodeState::NotStarted {
                lemma_untouched_not_started(*a);
            }
        },
        StateModel::IfElse(s, c, i, e) => {
            if s == NodeState::NotStarted {
                lemma_untouched_not_started(*c);
            }
        },
        StateModel::Not(s, n) => {
            if s == NodeState::NotStarted {
                lemma_untouched_not_started(*n);
            }
        },
        _ => {},
    }
}

/// In a consistent tree a sequence with children has succeeded exactly when every child
/// has, and a select with children has failed exactly when every child has.
pub proof fn lemma_list_result(m: StateModel)
    requires
        consistent(m),
    ensures
        m matches StateModel::Sequence(s, v, _) ==> v.len() > 0 ==> (s == NodeState::Success <==> forall|j: int|
            0 <= j < v.len() ==> state_of(#[trigger] v[j]) == NodeState::Success),
        m matches StateModel::Select(s, v, _) ==> v.len() > 0 ==> (s == NodeState::Failed <==> forall|j: int|
            0 <= j < v.len() ==> state_of(#[trigger] v[j]) == NodeState::Failed),
{
    match m {
        StateModel::Sequence(s, v, idx) => {
            lemma_list_result_of(s, v, idx, NodeState::Success);
        },
        StateModel::Select(s, v, idx) => {
            lemma_list_result_of(s, v, idx, NodeState::Failed);
        },
        _ => {},
    }
}

proof fn lemma_list_result_of(s: NodeState, v: Seq<StateModel>, idx: int, go: NodeState)
    requires
        list_order(s, v, idx, go),
        go == NodeState::Success || go == NodeState::Failed,
    ensures
        v.len() > 0 ==> (s == go <==> forall|j: int| 0 <= j < v.len() ==> state_of(#[trigger] v[j]) == go),
{
    if v.len() > 0 {
        if forall|j: int| 0 <= j < v.len() ==> state_of(#[trigger] v[j]) == go {
            if s == NodeState::NotStarted {
                lemma_untouched_not_started(v[0]);
            } else if s == NodeState::Executing {
                assert(state_of(v[idx]) == go);
            } else if s != go {
                assert(state_of(v[idx]) == go);
            }
        }
    }
}

/// The tree after running `m` once for each report of `reports`, in order.
pub open spec fn spec_run_all(m: StateModel, reports: Seq<TaskState>) -> StateModel
    decreases reports.len(),
{
    if reports.len() == 0 {
        m
    } else {
        spec_run_all(spec_run(m, reports[0]).0, reports.drop_first())
    }
}

/// Whatever the actor reports, a tree built from `n` and run any number of times stays
/// consistent, so that each sequence, select, `Try`, `IfElse` and `Not` in it keeps the
/// order and results `consistent` describes (see `lemma_list_result` and
/// `lemma_node_result`); once finished it stays as it is; and a reset gives back the tree
/// `new` built.
pub proof fn lemma_runs_from_new(n: NodeModel, reports: Seq<TaskState>, ts: TaskState)
    ensures
        consistent(spec_run_all(spec_new(n), reports)),
        spec_reset(spec_run_all(spec_new(n), reports)) == spec_new(n),
        is_done(state_of(spec_run_all(spec_new(n), reports))) ==> spec_run(spec_run_all(spec_new(n), reports), ts) == (
            spec_run_all(spec_new(n), reports),
            state_of(spec_run_all(spec_new(n), reports)),
            Seq::<TaskCommand>::empty(),
        ),
{
    lemma_new_is_consistent(n);
    lemma_new_is_reset(n);
    lemma_run_all_keeps(spec_new(n), reports);
    if is_done(state_of(spec_run_all(spec_new(n), reports))) {
        lemma_done_is_stable(spec_run_all(spec_new(n), reports), ts);
    }
}

proof fn lemma_run_all_keeps(m: StateModel, reports: Seq<TaskState>)
    requires
        consistent(m),
    ensures
        consistent(spec_run_all(m, reports)),
        spec_reset(spec_run_all(m, reports)) == spec_reset(m),
    decreases reports.len(),
{
    if reports.len() > 0 {
        lemma_run_keeps(m, reports[0]);
        lemma_run_all_keeps(spec_run(m, reports[0]).0, reports.drop_first());
    }
}

/// The models of a sequence of tree descriptions.
pub open spec fn node_models(v: Seq<BehaviorNode>) -> Seq<NodeModel> {
    Seq::new(
        v.len(),
        |j: int|
            if 0 <= j < v.len() {
                v[j].model()
            } else {
                NodeModel::Task(0)
            },
    )
}

pub proof fn lemma_node_list_model(n: BehaviorNode)
    ensures
        match n {
            BehaviorNode::Sequence(v) => n.model() == NodeModel::Sequence(node_models(v@)),
            BehaviorNode::Select(v) => n.model() == NodeModel::Select(node_models(v@)),
            _ => true,
        },
{
    match n {
        BehaviorNode::Sequence(v) => {
            assert(node_models(v@) =~= match n.model() {
                NodeModel::Sequence(w) => w,
                _ => Seq::empty(),
            });
        },
        BehaviorNode::Select(v) => {
            assert(node_models(v@) =~= match n.model() {
                NodeModel::Select(w) => w,
                _ => Seq::empty(),
            });
        },
        _ => {},
    }
}

/// The models of the children of a sequence or select.
pub open spec fn vec_models(v: Seq<BehaviorNodeState>) -> Seq<StateModel> {
    Seq::new(
        v.len(),
        |j: int|
            if 0 <= j < v.len() {
                v[j].model()
            } else {
                StateModel::Task(NodeState::NotStarted, 0)
            },
    )
}

pub proof fn lemma_list_model(n: BehaviorNodeState)
    ensures
        match n {
            BehaviorNodeState::Sequence(s, v, i) => n.model() == StateModel::Sequence(s, vec_models(v@), i as int),
            BehaviorNodeState::Select(s, v, i) => n.model() == StateModel::Select(s, vec_models(v@), i as int),
            _ => true,
        },
{
    match n {
        BehaviorNodeState::Sequence(s, v, i) => {
            assert(vec_models(v@) =~= match n.model() {
                StateModel::Sequence(_, w, _) => w,
                _ => Seq::empty(),
            });
        },
        BehaviorNodeState::Select(s, v, i) => {
            assert(vec_models(v@) =~= match n.model() {
                StateModel::Select(_, w, _) => w,
                _ => Seq::empty(),
            });
        },
        _ => {},
    }
}

pub proof fn lemma_vec_models_update(v: Seq<BehaviorNodeState>, i: int, x: BehaviorNodeState)
    requires
        0 <= i < v.len(),
    ensures
        vec_models(v.update(i, x)) == vec_models(v).update(i, x.model()),
        vec_models(v)[i] == v[i].model(),
        vec_models(v).len() == v.len(),
{
    assert(vec_models(v.update(i, x)) =~= vec_models(v).update(i, x.model()));
}

impl BehaviorNodeState {
    /// The state stored at the root of the tree.
    pub fn state(&self) -> (r: NodeState)
        ensures
            r == state_of(self.model()),
    {
        match self {
            BehaviorNodeState::Task(s, _) => *s,
            BehaviorNodeState::Try(s, _, _) => *s,
            BehaviorNodeState::Not(s, _) => *s,
            BehaviorNodeState::Sequence(s, _, _) => *s,
            BehaviorNodeState::Select(s, _, _) => *s,
            BehaviorNodeState::IfElse(s, _, _, _) => *s,
        }
    }

    /// The running form of a tree description; see `spec_new`.
    pub fn new(n: BehaviorNode) -> (r: BehaviorNodeState)
        ensures
            r.model() == spec_new(n.model()),
        decreases node_height(n.model()), 1nat,
    {
        proof {
            lemma_node_list_model(n);
        }
        match n {
            BehaviorNode::Task(task) => BehaviorNodeState::Task(NodeState::NotStarted, task),
            BehaviorNode::Try(node, catch) => BehaviorNodeState::Try(
                NodeState::NotStarted,
                Box::new(Self::new(*node)),
                Box::new(Self::new(*catch)),
            ),
            BehaviorNode::Not(node) => BehaviorNodeState::Not(NodeState::NotStarted, Box::new(Self::new(*node))),
            BehaviorNode::Sequence(seq) => {
                let v = Self::new_list(seq);
                let res = BehaviorNodeState::Sequence(NodeState::NotStarted, v, 0);
                proof {
                    lemma_list_model(res);
                }
                res
            },
            BehaviorNode::IfElse(condition, if_node, else_node) => BehaviorNodeState::IfElse(
                NodeState::NotStarted,
                Box::new(Self::new(*condition)),
                Box::new(Self::new(*if_node)),
                Box::new(Self::new(*else_node)),
            ),
            BehaviorNode::Select(seq) => {
                let v = Self::new_list(seq);
                let res = BehaviorNodeState::Select(NodeState::NotStarted, v, 0);
                proof {
                    lemma_list_model(res);
                }
                res
            },
        }
    }

    fn new_list(seq: Vec<BehaviorNode>) -> (r: Vec<BehaviorNodeState>)
        ensures
            vec_models(r@) == spec_new_list(node_models(seq@)),
        decreases 1 + node_heights(node_models(seq@), seq@.len() as int), 0nat,
    {
        let ghost orig = node_models(seq@);
        let ghost len = seq@.len();
        let mut rest = seq;
        let total = rest.len();
        let mut out: Vec<BehaviorNodeState> = Vec::new();
        let mut k: usize = 0;
        while rest.len() > 0
            invariant
                orig.len() == len,
                len == total,
                k + rest@.len() == len,
                out@.len() == k,
                forall|j: int| 0 <= j < rest@.len() ==> (#[trigger] rest@[j]).model() == orig[k + j],
                forall|j: int| 0 <= j < k ==> #[trigger] out@[j].model() == spec_new(orig[j]),
                node_heights(orig, len as int) == node_heights(node_models(seq@), seq@.len() as int),
            decreases rest@.len(),
        {
            let ghost before = rest@;
            let child = rest.remove(0);
            proof {
                assert(child == before[0]);
                assert(child.model() == orig[k as int]);
                lemma_node_heights_ge(orig, len as int, k as int);
            }
            let c = Self::new(child);
            out.push(c);
            proof {
                assert forall|j: int| 0 <= j < rest@.len() implies (#[trigger] rest@[j]).model() == orig[(k + 1) + j] by {
                    assert(rest@[j] == before[j + 1]);
                }
            }
            k = k + 1;
        }
        assert(vec_models(out@) =~= spec_new_list(orig));
        out
    }

    /// Puts the tree back to the start; see `spec_reset`.
    pub fn reset(&mut self)
        ensures
            final(self).model() == spec_reset(old(self).model()),
    {
        let mut tmp = BehaviorNodeState::Task(NodeState::NotStarted, 0);
        std::mem::swap(self, &mut tmp);
        *self = tmp.reset_owned();
    }

    fn reset_owned(self) -> (r: BehaviorNodeState)
        ensures
            r.model() == spec_reset(self.model()),
        decreases height(self.model()), 1nat,
    {
        proof {
            lemma_list_model(self);
        }
        match self {
            BehaviorNodeState::Task(_, task) => BehaviorNodeState::Task(NodeState::NotStarted, task),
            BehaviorNodeState::Try(_, node, catch) => BehaviorNodeState::Try(
                NodeState::NotStarted,
                Box::new((*node).reset_owned()),
                Box::new((*catch).reset_owned()),
            ),
            BehaviorNodeState::IfElse(_, condition, if_node, else_node) => BehaviorNodeState::IfElse(
                NodeState::NotStarted,
                Box::new((*condition).reset_owned()),
                Box::new((*if_node).reset_owned()),
                Box::new((*else_node).reset_owned()),
            ),
            BehaviorNodeState::Not(_, node) => BehaviorNodeState::Not(NodeState::NotStarted, Box::new((*node).reset_owned())),
            BehaviorNodeState::Sequence(_, seq, _) => {
                let v = Self::reset_list(seq);
                let res = BehaviorNodeState::Sequence(NodeState::NotStarted, v, 0);
                proof {
                    lemma_list_model(res);
                }
                res
            },
            BehaviorNodeState::Select(_, seq, _) => {
                let v = Self::reset_list(seq);
                let res = BehaviorNodeState::Select(NodeState::NotStarted, v, 0);
                proof {
                    lemma_list_model(res);
                }
                res
            },
        }
    }

    fn reset_list(seq: Vec<BehaviorNodeState>) -> (r: Vec<BehaviorNodeState>)
        ensures
            vec_models(r@) == spec_reset_list(vec_models(seq@)),
        decreases 1 + heights(vec_models(seq@), seq@.len() as int), 0nat,
    {
        let ghost orig = vec_models(seq@);
        let ghost len = seq@.len();
        let mut rest = seq;
        let total = rest.len();
        let mut out: Vec<BehaviorNodeState> = Vec::new();
        let mut k: usize = 0;
        while rest.len() > 0
            invariant
                orig.len() == len,
                len == total,
                k + rest@.len() == len,
                out@.len() == k,
                forall|j: int| 0 <= j < rest@.len() ==> (#[trigger] rest@[j]).model() == orig[k + j],
                forall|j: int| 0 <= j < k ==> #[trigger] out@[j].model() == spec_reset(orig[j]),
                heights(orig, len as int) == heights(vec_models(seq@), seq@.len() as int),
            decreases rest@.len(),
        {
            let ghost before = rest@;
            let child = rest.remove(0);
            proof {
                assert(child == before[0]);
                assert(child.model() == orig[k as int]);
                lemma_heights_ge(orig, len as int, k as int);
            }
            let c = child.reset_owned();
            out.push(c);
            proof {
                assert forall|j: int| 0 <= j < rest@.len() implies (#[trigger] rest@[j]).model() == orig[(k + 1) + j] by {
                    assert(rest@[j] == before[j + 1]);
                }
            }
            k = k + 1;
        }
        assert(vec_models(out@) =~= spec_reset_list(orig));
        out
    }

    /// A sequence node with the given state, children and index.
    fn sequence_node(s: NodeState, seq: Vec<BehaviorNodeState>, idx: usize) -> (r: BehaviorNodeState)
        ensures
            r == BehaviorNodeState::Sequence(s, seq, idx),
            r.model() == StateModel::Sequence(s, vec_models(seq@), idx as int),
    {
        let res = BehaviorNodeState::Sequence(s, seq, idx);
        proof {
            lemma_list_model(res);
        }
        res
    }

    /// A select node with the given state, children and index.
    fn select_node(s: NodeState, seq: Vec<BehaviorNodeState>, idx: usize) -> (r: BehaviorNodeState)
        ensures
            r == BehaviorNodeState::Select(s, seq, idx),
            r.model() == StateModel::Select(s, vec_models(seq@), idx as int),
    {
        let res = BehaviorNodeState::Select(s, seq, idx);
        proof {
            lemma_list_model(res);
        }
        res
    }

    /// Runs the tree once in place; see `spec_run`. The tree never reports `NotStarted`
    /// and afterwards stores at its root the state it reported.
    pub fn run(&mut self, task_state: TaskState, cmds: &mut Vec<TaskCommand>) -> (r: NodeState)
        ensures
            final(self).model() == spec_run(old(self).model(), task_state).0,
            r == spec_run(old(self).model(), task_state).1,
            final(cmds)@ == old(cmds)@ + spec_run(old(self).model(), task_state).2,
            r != NodeState::NotStarted,
            state_of(final(self).model()) == r,
    {
        proof {
            lemma_run_props(self.model(), task_state);
        }
        let mut tmp = BehaviorNodeState::Task(NodeState::NotStarted, 0);
        std::mem::swap(self, &mut tmp);
        let (n, r) = tmp.step(task_state, cmds);
        *self = n;
        r
    }

    /// Runs the tree once: appends to `cmds` the tasks to start or stop, and returns the
    /// tree afterwards with the state it reports.
    pub fn step(self, task_state: TaskState, cmds: &mut Vec<TaskCommand>) -> (r: (BehaviorNodeState, NodeState))
        ensures
            r.0.model() == spec_run(self.model(), task_state).0,
            r.1 == spec_run(self.model(), task_state).1,
            final(cmds)@ == old(cmds)@ + spec_run(self.model(), task_state).2,
        decreases height(self.model()), rank(self.model()), 1nat,
    {
        proof {
            lemma_list_model(self);
        }
        match self {
            BehaviorNodeState::Task(s, task) => Self::step_task(s, task, task_state, cmds),
            BehaviorNodeState::Try(s, node, catch) => Self::step_try(s, node, catch, task_state, cmds),
            BehaviorNodeState::IfElse(s, c, i, e) => Self::step_if_else(s, c, i, e, task_state, cmds),
            BehaviorNodeState::Not(s, node) => Self::step_not(s, node, task_state, cmds),
            BehaviorNodeState::Sequence(s, seq, idx) => Self::step_sequence(s, seq, idx, task_state, cmds),
            BehaviorNodeState::Select(s, seq, idx) => Self::step_select(s, seq, idx, task_state, cmds),
        }
    }

    fn step_task(s: NodeState, task: usize, task_state: TaskState, cmds: &mut Vec<TaskCommand>) -> (r: (BehaviorNodeState, NodeState))
        ensures
            r.0.model() == spec_run(StateModel::Task(s, task), task_state).0,
            r.1 == spec_run(StateModel::Task(s, task), task_state).1,
            final(cmds)@ == old(cmds)@ + spec_run(StateModel::Task(s, task), task_state).2,
    {
        match s {
            NodeState::NotStarted => {
                cmds.push(TaskCommand::Insert(task));
                (BehaviorNodeState::Task(NodeState::Executing, task), NodeState::Executing)
            },
            NodeState::Executing => match task_state {
                TaskState::Executing => {
                    assert(cmds@ =~= old(cmds)@ + Seq::<TaskCommand>::empty());
                    (BehaviorNodeState::Task(s, task), NodeState::Executing)
                },
                TaskState::Success => {
                    cmds.push(TaskCommand::Remove(task));
                    (BehaviorNodeState::Task(NodeState::Success, task), NodeState::Success)
                },
                TaskState::Failed => {
                    cmds.push(TaskCommand::Remove(task));
                    (BehaviorNodeState::Task(NodeState::Failed, task), NodeState::Failed)
                },
            },
            _ => {
                assert(cmds@ =~= old(cmds)@ + Seq::<TaskCommand>::empty());
                (BehaviorNodeState::Task(s, task), s)
            },
        }
    }

    fn step_try(s: NodeState, node: Box<BehaviorNodeState>, catch: Box<BehaviorNodeState>, task_state: TaskState, cmds: &mut Vec<TaskCommand>) -> (r: (BehaviorNodeState, NodeState))
        ensures
            r.0.model() == spec_run(StateModel::Try(s, Box::new(node.model()), Box::new(catch.model())), task_state).0,
            r.1 == spec_run(StateModel::Try(s, Box::new(node.model()), Box::new(catch.model())), task_state).1,
            final(cmds)@ == old(cmds)@ + spec_run(StateModel::Try(s, Box::new(node.model()), Box::new(catch.model())), task_state).2,
        decreases height(StateModel::Try(s, Box::new(node.model()), Box::new(catch.model()))), rank(StateModel::Try(s, Box::new(node.model()), Box::new(catch.model()))), 0nat,
    {
        let ghost m = StateModel::Try(s, Box::new(node.model()), Box::new(catch.model()));
        let sa = node.state();
        match sa {
            NodeState::Success => {
                assert(cmds@ =~= old(cmds)@ + Seq::<TaskCommand>::empty());
                (BehaviorNodeState::Try(NodeState::Success, node, catch), NodeState::Success)
            },
            NodeState::Failed => {
                let sb = catch.state();
                match sb {
                    NodeState::Success => {
                        assert(cmds@ =~= old(cmds)@ + Seq::<TaskCommand>::empty());
                        (BehaviorNodeState::Try(NodeState::Success, node, catch), NodeState::Success)
                    },
                    NodeState::Failed => {
                        assert(cmds@ =~= old(cmds)@ + Seq::<TaskCommand>::empty());
                        (BehaviorNodeState::Try(NodeState::Failed, node, catch), NodeState::Failed)
                    },
                    _ => {
                        proof {
                            lemma_run_props(catch.model(), task_state);
                        }
                        let (b2, r) = (*catch).step(task_state, cmds);
                        if r != NodeState::Executing {
                            let res = Self::step_try(NodeState::Executing, node, Box::new(b2), task_state, cmds);
                            assert(cmds@ =~= old(cmds)@ + spec_run(m, task_state).2);
                            res
                        } else {
                            (BehaviorNodeState::Try(NodeState::Executing, node, Box::new(b2)), NodeState::Executing)
                        }
                    },
                }
            },
            _ => {
                proof {
                    lemma_run_props(node.model(), task_state);
                }
                let (a2, r) = (*node).step(task_state, cmds);
                if r != NodeState::Executing {
                    let res = Self::step_try(NodeState::Executing, Box::new(a2), catch, task_state, cmds);
                    assert(cmds@ =~= old(cmds)@ + spec_run(m, task_state).2);
                    res
                } else {
                    (BehaviorNodeState::Try(NodeState::Executing, Box::new(a2), catch), NodeState::Executing)
                }
            },
        }
    }

    fn step_if_else(s: NodeState, condition: Box<BehaviorNodeState>, if_node: Box<BehaviorNodeState>, else_node: Box<BehaviorNodeState>, task_state: TaskState, cmds: &mut Vec<TaskCommand>) -> (r: (BehaviorNodeState, NodeState))
        ensures
            r.0.model() == spec_run(StateModel::IfElse(s, Box::new(condition.model()), Box::new(if_node.model()), Box::new(else_node.model())), task_state).0,
            r.1 == spec_run(StateModel::IfElse(s, Box::new(condition.model()), Box::new(if_node.model()), Box::new(else_node.model())), task_state).1,
            final(cmds)@ == old(cmds)@ + spec_run(StateModel::IfElse(s, Box::new(condition.model()), Box::new(if_node.model()), Box::new(else_node.model())), task_state).2,
        decreases height(StateModel::IfElse(s, Box::new(condition.model()), Box::new(if_node.model()), Box::new(else_node.model()))), rank(StateModel::IfElse(s, Box::new(condition.model()), Box::new(if_node.model()), Box::new(else_node.model()))), 0nat,
    {
        let ghost m = StateModel::IfElse(s, Box::new(condition.model()), Box::new(if_node.model()), Box::new(else_node.model()));
        let sc = condition.state();
        match sc {
            NodeState::Success => {
                let (i2, r) = (*if_node).step(task_state, cmds);
                (BehaviorNodeState::IfElse(r, condition, Box::new(i2), else_node), r)
            },
            NodeState::Failed => {
                let (e2, r) = (*else_node).step(task_state, cmds);
                (BehaviorNodeState::IfElse(r, condition, if_node, Box::new(e2)), r)
            },
            _ => {
                proof {
                    lemma_run_props(condition.model(), task_state);
                }
                let (c2, r) = (*condition).step(task_state, cmds);
                if r != NodeState::Executing {
                    let res = Self::step_if_else(s, Box::new(c2), if_node, else_node, task_state, cmds);
                    assert(cmds@ =~= old(cmds)@ + spec_run(m, task_state).2);
                    res
                } else {
                    (BehaviorNodeState::IfElse(NodeState::Executing, Box::new(c2), if_node, else_node), NodeState::Executing)
                }
            },
        }
    }

    fn step_not(s: NodeState, node: Box<BehaviorNodeState>, task_state: TaskState, cmds: &mut Vec<TaskCommand>) -> (r: (BehaviorNodeState, NodeState))
        ensures
            r.0.model() == spec_run(StateModel::Not(s, Box::new(node.model())), task_state).0,
            r.1 == spec_run(StateModel::Not(s, Box::new(node.model())), task_state).1,
            final(cmds)@ == old(cmds)@ + spec_run(StateModel::Not(s, Box::new(node.model())), task_state).2,
        decreases height(StateModel::Not(s, Box::new(node.model()))), rank(StateModel::Not(s, Box::new(node.model()))), 0nat,
    {
        let ghost m = StateModel::Not(s, Box::new(node.model()));
        let sn = node.state();
        match sn {
            NodeState::Success => {
                assert(cmds@ =~= old(cmds)@ + Seq::<TaskCommand>::empty());
                (BehaviorNodeState::Not(NodeState::Failed, node), NodeState::Failed)
            },
            NodeState::Failed => {
                assert(cmds@ =~= old(cmds)@ + Seq::<TaskCommand>::empty());
                (BehaviorNodeState::Not(NodeState::Success, node), NodeState::Success)
            },
            _ => {
                proof {
                    lemma_run_props(node.model(), task_state);
                }
                let (n2, r) = (*node).step(task_state, cmds);
                if r != NodeState::Executing {
                    let res = Self::step_not(s, Box::new(n2), task_state, cmds);
                    assert(cmds@ =~= old(cmds)@ + spec_run(m, task_state).2);
                    res
                } else {
                    (BehaviorNodeState::Not(NodeState::Executing, Box::new(n2)), NodeState::Executing)
                }
            },
        }
    }

    /// One run of a Sequence node in state `s`, on child `idx` of `seq`.
    fn step_sequence(s: NodeState, seq: Vec<BehaviorNodeState>, idx: usize, task_state: TaskState, cmds: &mut Vec<TaskCommand>) -> (r: (BehaviorNodeState, NodeState))
        ensures
            r.0.model() == spec_run(StateModel::Sequence(s, vec_models(seq@), idx as int), task_state).0,
            r.1 == spec_run(StateModel::Sequence(s, vec_models(seq@), idx as int), task_state).1,
            final(cmds)@ == old(cmds)@ + spec_run(StateModel::Sequence(s, vec_models(seq@), idx as int), task_state).2,
        decreases height(StateModel::Sequence(s, vec_models(seq@), idx as int)), rank(StateModel::Sequence(s, vec_models(seq@), idx as int)), 0nat,
    {
        let ghost m = StateModel::Sequence(s, vec_models(seq@), idx as int);
        proof {
            lemma_list_model(BehaviorNodeState::Sequence(s, seq, idx));
        }
        match s {
            NodeState::Success => {
                let res = BehaviorNodeState::Sequence(s, seq, idx);
                proof {
                    lemma_list_model(res);
                }
                assert(cmds@ =~= old(cmds)@ + Seq::<TaskCommand>::empty());
                (res, s)
            },
            NodeState::Failed => {
                let res = BehaviorNodeState::Sequence(s, seq, idx);
                proof {
                    lemma_list_model(res);
                }
                assert(cmds@ =~= old(cmds)@ + Seq::<TaskCommand>::empty());
                (res, s)
            },
            NodeState::Executing => {
                if seq.len() == 0 {
                    assert(cmds@ =~= old(cmds)@ + Seq::<TaskCommand>::empty());
                    return (Self::sequence_node(NodeState::Success, seq, idx), NodeState::Success);
                }
                if idx >= seq.len() {
                    assert(cmds@ =~= old(cmds)@ + Seq::<TaskCommand>::empty());
                    return (Self::sequence_node(NodeState::Failed, seq, idx), NodeState::Failed);
                }
                let ghost old_seq = seq@;
                let ghost vm = vec_models(seq@);
                let mut seq = seq;
                let child = seq.remove(idx);
                proof {
                    lemma_vec_models_update(old_seq, idx as int, child);
                    lemma_heights_ge(vm, vm.len() as int, idx as int);
                    lemma_run_props(child.model(), task_state);
                }
                let (ch2, r) = child.step(task_state, cmds);
                seq.insert(idx, ch2);
                proof {
                    assert(seq@ =~= old_seq.update(idx as int, ch2));
                    lemma_vec_models_update(old_seq, idx as int, ch2);
                    lemma_heights_update(vm, vm.len() as int, idx as int, ch2.model());
                }
                match r {
                    NodeState::Success => {
                        if idx + 1 >= seq.len() {
                            (Self::sequence_node(NodeState::Success, seq, idx + 1), NodeState::Success)
                        } else {
                            let res = Self::step_sequence(NodeState::Executing, seq, idx + 1, task_state, cmds);
                            assert(cmds@ =~= old(cmds)@ + spec_run(m, task_state).2);
                            res
                        }
                    },
                    NodeState::Executing => (Self::sequence_node(NodeState::Executing, seq, idx), NodeState::Executing),
                    NodeState::Failed => (Self::sequence_node(NodeState::Failed, seq, idx), NodeState::Failed),
                    NodeState::NotStarted => (Self::sequence_node(NodeState::Failed, seq, idx), NodeState::Failed),
                }
            },
            NodeState::NotStarted => Self::step_sequence(NodeState::Executing, seq, 0, task_state, cmds),
        }
    }

    /// One run of a Select node in state `s`, on child `idx` of `seq`.
    fn step_select(s: NodeState, seq: Vec<BehaviorNodeState>, idx: usize, task_state: TaskState, cmds: &mut Vec<TaskCommand>) -> (r: (BehaviorNodeState, NodeState))
        ensures
            r.0.model() == spec_run(StateModel::Select(s, vec_models(seq@), idx as int), task_state).0,
            r.1 == spec_run(StateModel::Select(s, vec_models(seq@), idx as int), task_state).1,
            final(cmds)@ == old(cmds)@ + spec_run(StateModel::Select(s, vec_models(seq@), idx as int), task_state).2,
        decreases height(StateModel::Select(s, vec_models(seq@), idx as int)), rank(StateModel::Select(s, vec_models(seq@), idx as int)), 0nat,
    {
        let ghost m = StateModel::Select(s, vec_models(seq@), idx as int);
        proof {
            lemma_list_model(BehaviorNodeState::Select(s, seq, idx));
        }
        match s {
            NodeState::Success => {
                let res = BehaviorNodeState::Select(s, seq, idx);
                proof {
                    lemma_list_model(res);
                }
                assert(cmds@ =~= old(cmds)@ + Seq::<TaskCommand>::empty());
                (res, s)
            },
            NodeState::Failed => {
                let res = BehaviorNodeState::Select(s, seq, idx);
                proof {
                    lemma_list_model(res);
                }
                assert(cmds@ =~= old(cmds)@ + Seq::<TaskCommand>::empty());
                (res, s)
            },
            NodeState::Executing => {
                if idx >= seq.len() {
                    assert(cmds@ =~= old(cmds)@ + Seq::<TaskCommand>::empty());
                    return (Self::select_node(NodeState::Failed, seq, idx), NodeState::Failed);
                }
                let ghost old_seq = seq@;
                let ghost vm = vec_models(seq@);
                let mut seq = seq;
                let child = seq.remove(idx);
                proof {
                    lemma_vec_models_update(old_seq, idx as int, child);
                    lemma_heights_ge(vm, vm.len() as int, idx as int);
                    lemma_run_props(child.model(), task_state);
                }
                let (ch2, r) = child.step(task_state, cmds);
                seq.insert(idx, ch2);
                proof {
                    assert(seq@ =~= old_seq.update(idx as int, ch2));
                    lemma_vec_models_update(old_seq, idx as int, ch2);
                    lemma_heights_update(vm, vm.len() as int, idx as int, ch2.model());
                }
                match r {
                    NodeState::Failed => {
                        if idx + 1 >= seq.len() {
                            (Self::select_node(NodeState::Failed, seq, idx + 1), NodeState::Failed)
                        } else {
                            let res = Self::step_select(NodeState::Executing, seq, idx + 1, task_state, cmds);
                            assert(cmds@ =~= old(cmds)@ + spec_run(m, task_state).2);
                            res
                        }
                    },
                    NodeState::Executing => (Self::select_node(NodeState::Executing, seq, idx), NodeState::Executing),
                    NodeState::Success => (Self::select_node(NodeState::Success, seq, idx), NodeState::Success),
                    NodeState::NotStarted => (Self::select_node(NodeState::Failed, seq, idx), NodeState::Failed),
                }
            },
            NodeState::NotStarted => Self::step_select(NodeState::Executing, seq, 0, task_state, cmds),
        }
    }
}

/// The running form of `IfElse(c, i, e)`.
pub open spec fn if_else_node(s: NodeState, c: StateModel, i: StateModel, e: StateModel) -> StateModel {
    StateModel::IfElse(s, Box::new(c), Box::new(i), Box::new(e))
}

/// The running form of `Try(Sequence([c, i]), e)`.
pub open spec fn try_seq_node(t: NodeState, ss: NodeState, c: StateModel, i: StateModel, idx: int, e: StateModel) -> StateModel {
    StateModel::Try(t, Box::new(StateModel::Sequence(ss, seq![c, i], idx)), Box::new(e))
}

/// The points at which `IfElse(c, i, e)`, in state `s`, and `Try(Sequence([c, i]), e)`,
/// with the `Try` in state `t` and the sequence in state `ss` on child `idx`, match:
/// - `c` still runs (or nothing has started), and `e` has not finished;
/// - `c` succeeded and `i` runs, `e` has not finished;
/// - `c` and `i` succeeded, and so did both trees;
/// - `c` failed, and both trees report what `e` reports.
pub open spec fn if_else_try_phase(
    s: NodeState,
    c: StateModel,
    i: StateModel,
    e: StateModel,
    t: NodeState,
    ss: NodeState,
    idx: int,
) -> bool {
    let ns = NodeState::NotStarted;
    let ex = NodeState::Executing;
    let su = NodeState::Success;
    let fa = NodeState::Failed;
    ||| !is_done(state_of(c)) && !is_done(state_of(e)) && idx == 0 && ((s == ns && t == ns && ss == ns) || (s == ex && t == ex
        && ss == ex))
    ||| state_of(c) == su && state_of(i) == ex && !is_done(state_of(e)) && s == ex && t == ex && ss == ex && idx == 1
    ||| state_of(c) == su && state_of(i) == su && s == su && t == su && ss == su && idx == 2
    ||| state_of(c) == fa && state_of(e) != ns && s == state_of(e) && t == state_of(e) && ss == fa && idx == 0
}

/// `m1`, a running `IfElse(c, i, e)`, and `m2`, a running `Try(Sequence([c, i]), e)`,
/// hold the same consistent subtrees and are at matching points.
pub open spec fn if_else_try_match(m1: StateModel, m2: StateModel) -> bool {
    exists|s: NodeState, c: StateModel, i: StateModel, e: StateModel, t: NodeState, ss: NodeState, idx: int|
        #![trigger if_else_node(s, c, i, e), try_seq_node(t, ss, c, i, idx, e)]
        m1 == if_else_node(s, c, i, e) && m2 == try_seq_node(t, ss, c, i, idx, e) && consistent(c) && consistent(i) && consistent(e)
            && if_else_try_phase(s, c, i, e, t, ss, idx)
}

/// Whether `m` is an `IfElse` whose condition succeeded and whose if-branch failed.
pub open spec fn if_branch_failed(m: StateModel) -> bool {
    m matches StateModel::IfElse(_, c, i, _) && state_of(*c) == NodeState::Success && state_of(*i) == NodeState::Failed
}

/// `IfElse(c, i, e)` and `Try(Sequence([c, i]), e)` start at matching points.
pub proof fn lemma_if_else_try_start(c: NodeModel, i: NodeModel, e: NodeModel)
    ensures
        if_else_try_match(
            spec_new(NodeModel::IfElse(Box::new(c), Box::new(i), Box::new(e))),
            spec_new(NodeModel::Try(Box::new(NodeModel::Sequence(seq![c, i])), Box::new(e))),
        ),
{
    let ns = NodeState::NotStarted;
    lemma_new_is_consistent(c);
    lemma_new_is_consistent(i);
    lemma_new_is_consistent(e);
    lemma_new_is_reset(c);
    lemma_new_is_reset(e);
    lemma_untouched_not_started(spec_new(c));
    lemma_untouched_not_started(spec_new(e));
    let v = seq![c, i];
    assert(spec_new_list(v) =~= seq![spec_new(c), spec_new(i)]);
    assert(spec_new(NodeModel::Sequence(v)) == StateModel::Sequence(ns, seq![spec_new(c), spec_new(i)], 0));
    let m1 = spec_new(NodeModel::IfElse(Box::new(c), Box::new(i), Box::new(e)));
    let m2 = spec_new(NodeModel::Try(Box::new(NodeModel::Sequence(v)), Box::new(e)));
    assert(m1 == if_else_node(ns, spec_new(c), spec_new(i), spec_new(e)));
    assert(m2 == try_seq_node(ns, ns, spec_new(c), spec_new(i), 0, spec_new(e)));
    assert(if_else_try_phase(ns, spec_new(c), spec_new(i), spec_new(e), ns, ns, 0));
}

/// `IfElse(c, i, e)` runs as `Try(Sequence([c, i]), e)` does, for any subtrees, as long
/// as `i` does not fail: from matching points, a run with the same report from the actor
/// gives the same result and the same commands, and leads to matching points again.
/// (When `i` fails, the `IfElse` fails while the `Try` goes on to `e`.)
pub proof fn lemma_if_else_runs_as_try(m1: StateModel, m2: StateModel, ts: TaskState)
    requires
        if_else_try_match(m1, m2),
        !if_branch_failed(spec_run(m1, ts).0),
    ensures
        spec_run(m1, ts).1 == spec_run(m2, ts).1,
        spec_run(m1, ts).2 == spec_run(m2, ts).2,
        if_else_try_match(spec_run(m1, ts).0, spec_run(m2, ts).0),
{
    let (s, c, i, e, t, ss, idx) = choose|s: NodeState, c: StateModel, i: StateModel, e: StateModel, t: NodeState, ss: NodeState, idx: int|
        #![trigger if_else_node(s, c, i, e), try_seq_node(t, ss, c, i, idx, e)]
        m1 == if_else_node(s, c, i, e) && m2 == try_seq_node(t, ss, c, i, idx, e) && consistent(c) && consistent(i) && consistent(e)
            && if_else_try_phase(s, c, i, e, t, ss, idx);
    if !is_done(state_of(c)) {
        lemma_phase_condition(s, c, i, e, t, ss, ts);
    } else if state_of(c) == NodeState::Success && state_of(i) == NodeState::Executing {
        lemma_phase_branch(c, i, e, ts);
    } else if state_of(c) == NodeState::Success {
        lemma_phase_done(c, i, e, ts);
    } else {
        lemma_phase_else(s, c, i, e, ts);
    }
}

/// Matching points while the condition `c` runs.
#[verifier::spinoff_prover]
#[verifier::rlimit(50)]
proof fn lemma_phase_condition(s: NodeState, c: StateModel, i: StateModel, e: StateModel, t: NodeState, ss: NodeState, ts: TaskState)
    requires
        consistent(c),
        consistent(i),
        consistent(e),
        !is_done(state_of(c)),
        !is_done(state_of(e)),
        (s == NodeState::NotStarted && t == NodeState::NotStarted && ss == NodeState::NotStarted) || (s == NodeState::Executing && t
            == NodeState::Executing && ss == NodeState::Executing),
        !if_branch_failed(spec_run(if_else_node(s, c, i, e), ts).0),
    ensures
        spec_run(if_else_node(s, c, i, e), ts).1 == spec_run(try_seq_node(t, ss, c, i, 0, e), ts).1,
        spec_run(if_else_node(s, c, i, e), ts).2 == spec_run(try_seq_node(t, ss, c, i, 0, e), ts).2,
        if_else_try_match(spec_run(if_else_node(s, c, i, e), ts).0, spec_run(try_seq_node(t, ss, c, i, 0, e), ts).0),
{
    let ex = NodeState::Executing;
    let su = NodeState::Success;
    let fa = NodeState::Failed;
    let m1 = if_else_node(s, c, i, e);
    let m2 = try_seq_node(t, ss, c, i, 0, e);
    let v = seq![c, i];
    lemma_run_props(c, ts);
    lemma_run_keeps(c, ts);
    let (c2, rc, cc) = spec_run(c, ts);
    let sq = StateModel::Sequence(ss, v, 0);
    let sq_ex = StateModel::Sequence(ex, v, 0);
    assert(spec_run(sq, ts) == spec_run(sq_ex, ts));
    let v2 = v.update(0, c2);
    assert(v2 =~= seq![c2, i]);
    lemma_run_props(sq_ex, ts);
    if rc == su {
        lemma_run_props(i, ts);
        lemma_run_keeps(i, ts);
        let (i2, ri, ci) = spec_run(i, ts);
        let v3 = v2.update(1, i2);
        assert(v3 =~= seq![c2, i2]);
        assert(spec_run(if_else_node(s, c2, i, e), ts) == (if_else_node(ri, c2, i2, e), ri, ci));
        assert(spec_run(m1, ts) == (if_else_node(ri, c2, i2, e), ri, cc + ci));
        assert(ri != fa) by {
            assert(spec_run(m1, ts).0 == if_else_node(ri, c2, i2, e));
        }
        if ri == su {
            assert(spec_run(StateModel::Sequence(ex, v2, 1), ts) == (StateModel::Sequence(su, v3, 2), su, ci));
            assert(spec_run(sq_ex, ts) == (StateModel::Sequence(su, v3, 2), su, cc + ci));
            let a2 = StateModel::Sequence(su, v3, 2);
            assert(spec_run(StateModel::Try(ex, Box::new(a2), Box::new(e)), ts) == (
                StateModel::Try(su, Box::new(a2), Box::new(e)),
                su,
                Seq::<TaskCommand>::empty(),
            ));
            assert(cc + ci + Seq::<TaskCommand>::empty() =~= cc + ci);
            assert(spec_run(m2, ts) == (try_seq_node(su, su, c2, i2, 2, e), su, cc + ci));
            assert(if_else_try_phase(su, c2, i2, e, su, su, 2));
        } else {
            assert(spec_run(StateModel::Sequence(ex, v2, 1), ts) == (StateModel::Sequence(ex, v3, 1), ex, ci));
            assert(spec_run(sq_ex, ts) == (StateModel::Sequence(ex, v3, 1), ex, cc + ci));
            assert(spec_run(m2, ts) == (try_seq_node(ex, ex, c2, i2, 1, e), ex, cc + ci));
            assert(if_else_try_phase(ex, c2, i2, e, ex, ex, 1));
        }
    } else if rc == ex {
        assert(spec_run(sq_ex, ts) == (StateModel::Sequence(ex, v2, 0), ex, cc));
        assert(spec_run(m1, ts) == (if_else_node(ex, c2, i, e), ex, cc));
        assert(spec_run(m2, ts) == (try_seq_node(ex, ex, c2, i, 0, e), ex, cc));
        assert(if_else_try_phase(ex, c2, i, e, ex, ex, 0));
    } else {
        assert(rc == fa);
        lemma_run_props(e, ts);
        lemma_run_keeps(e, ts);
        let (e2, re, ce) = spec_run(e, ts);
        assert(spec_run(sq_ex, ts) == (StateModel::Sequence(fa, v2, 0), fa, cc));
        let a2 = StateModel::Sequence(fa, v2, 0);
        assert(spec_run(if_else_node(s, c2, i, e), ts) == (if_else_node(re, c2, i, e2), re, ce));
        assert(spec_run(m1, ts) == (if_else_node(re, c2, i, e2), re, cc + ce));
        if re == ex {
            assert(spec_run(StateModel::Try(ex, Box::new(a2), Box::new(e)), ts) == (
                StateModel::Try(ex, Box::new(a2), Box::new(e2)),
                ex,
                ce,
            ));
        } else {
            assert(spec_run(StateModel::Try(ex, Box::new(a2), Box::new(e2)), ts) == (
                StateModel::Try(re, Box::new(a2), Box::new(e2)),
                re,
                Seq::<TaskCommand>::empty(),
            ));
            assert(ce + Seq::<TaskCommand>::empty() =~= ce);
            assert(spec_run(StateModel::Try(ex, Box::new(a2), Box::new(e)), ts) == (
                StateModel::Try(re, Box::new(a2), Box::new(e2)),
                re,
                ce,
            ));
        }
        assert(spec_run(m2, ts) == (try_seq_node(re, fa, c2, i, 0, e2), re, cc + ce));
        assert(if_else_try_phase(re, c2, i, e2, re, fa, 0));
    }
}

/// Matching points while the if-branch `i` runs.
#[verifier::spinoff_prover]
proof fn lemma_phase_branch(c: StateModel, i: StateModel, e: StateModel, ts: TaskState)
    requires
        consistent(c),
        consistent(i),
        consistent(e),
        state_of(c) == NodeState::Success,
        state_of(i) == NodeState::Executing,
        !is_done(state_of(e)),
        !if_branch_failed(spec_run(if_else_node(NodeState::Executing, c, i, e), ts).0),
    ensures
        spec_run(if_else_node(NodeState::Executing, c, i, e), ts).1 == spec_run(
            try_seq_node(NodeState::Executing, NodeState::Executing, c, i, 1, e),
            ts,
        ).1,
        spec_run(if_else_node(NodeState::Executing, c, i, e), ts).2 == spec_run(
            try_seq_node(NodeState::Executing, NodeState::Executing, c, i, 1, e),
            ts,
        ).2,
        if_else_try_match(
            spec_run(if_else_node(NodeState::Executing, c, i, e), ts).0,
            spec_run(try_seq_node(NodeState::Executing, NodeState::Executing, c, i, 1, e), ts).0,
        ),
{
    let ex = NodeState::Executing;
    let su = NodeState::Success;
    let m1 = if_else_node(ex, c, i, e);
    let m2 = try_seq_node(ex, ex, c, i, 1, e);
    let v = seq![c, i];
    lemma_run_props(i, ts);
    lemma_run_keeps(i, ts);
    let (i2, ri, ci) = spec_run(i, ts);
    let v3 = v.update(1, i2);
    assert(v3 =~= seq![c, i2]);
    let sq = StateModel::Sequence(ex, v, 1);
    lemma_run_props(sq, ts);
    assert(spec_run(m1, ts) == (if_else_node(ri, c, i2, e), ri, ci));
    assert(ri != NodeState::Failed) by {
        assert(spec_run(m1, ts).0 == if_else_node(ri, c, i2, e));
    }
    if ri == su {
        assert(spec_run(sq, ts) == (StateModel::Sequence(su, v3, 2), su, ci));
        let a2 = StateModel::Sequence(su, v3, 2);
        assert(spec_run(StateModel::Try(ex, Box::new(a2), Box::new(e)), ts) == (
            StateModel::Try(su, Box::new(a2), Box::new(e)),
            su,
            Seq::<TaskCommand>::empty(),
        ));
        assert(ci + Seq::<TaskCommand>::empty() =~= ci);
        assert(spec_run(m2, ts) == (try_seq_node(su, su, c, i2, 2, e), su, ci));
        assert(if_else_try_phase(su, c, i2, e, su, su, 2));
    } else {
        assert(spec_run(sq, ts) == (StateModel::Sequence(ex, v3, 1), ex, ci));
        assert(spec_run(m2, ts) == (try_seq_node(ex, ex, c, i2, 1, e), ex, ci));
        assert(if_else_try_phase(ex, c, i2, e, ex, ex, 1));
    }
}

/// Once the condition and the if-branch succeeded, both trees stay as they are.
proof fn lemma_phase_done(c: StateModel, i: StateModel, e: StateModel, ts: TaskState)
    requires
        consistent(c),
        consistent(i),
        consistent(e),
        state_of(c) == NodeState::Success,
        state_of(i) == NodeState::Success,
    ensures
        spec_run(if_else_node(NodeState::Success, c, i, e), ts) == (
            if_else_node(NodeState::Success, c, i, e),
            NodeState::Success,
            Seq::<TaskCommand>::empty(),
        ),
        spec_run(try_seq_node(NodeState::Success, NodeState::Success, c, i, 2, e), ts) == (
            try_seq_node(NodeState::Success, NodeState::Success, c, i, 2, e),
            NodeState::Success,
            Seq::<TaskCommand>::empty(),
        ),
        if_else_try_match(if_else_node(NodeState::Success, c, i, e), try_seq_node(NodeState::Success, NodeState::Success, c, i, 2, e)),
{
    lemma_done_is_stable(i, ts);
    assert(if_else_try_phase(NodeState::Success, c, i, e, NodeState::Success, NodeState::Success, 2));
}

/// After the condition failed, both trees report what the else-branch `e` reports.
#[verifier::spinoff_prover]
proof fn lemma_phase_else(s: NodeState, c: StateModel, i: StateModel, e: StateModel, ts: TaskState)
    requires
        consistent(c),
        consistent(i),
        consistent(e),
        state_of(c) == NodeState::Failed,
        state_of(e) != NodeState::NotStarted,
        s == state_of(e),
    ensures
        spec_run(if_else_node(s, c, i, e), ts).1 == spec_run(try_seq_node(s, NodeState::Failed, c, i, 0, e), ts).1,
        spec_run(if_else_node(s, c, i, e), ts).2 == spec_run(try_seq_node(s, NodeState::Failed, c, i, 0, e), ts).2,
        if_else_try_match(
            spec_run(if_else_node(s, c, i, e), ts).0,
            spec_run(try_seq_node(s, NodeState::Failed, c, i, 0, e), ts).0,
        ),
{
    let ex = NodeState::Executing;
    let fa = NodeState::Failed;
    let m1 = if_else_node(s, c, i, e);
    let m2 = try_seq_node(s, fa, c, i, 0, e);
    let a = StateModel::Sequence(fa, seq![c, i], 0);
    if is_done(state_of(e)) {
        lemma_done_is_stable(e, ts);
        assert(spec_run(m1, ts) == (m1, s, Seq::<TaskCommand>::empty()));
        assert(spec_run(m2, ts) == (m2, s, Seq::<TaskCommand>::empty()));
        assert(if_else_try_phase(s, c, i, e, s, fa, 0));
    } else {
        lemma_run_props(e, ts);
        lemma_run_keeps(e, ts);
        let (e2, re, ce) = spec_run(e, ts);
        assert(spec_run(m1, ts) == (if_else_node(re, c, i, e2), re, ce));
        if re == ex {
            assert(spec_run(m2, ts) == (try_seq_node(ex, fa, c, i, 0, e2), ex, ce));
        } else {
            assert(spec_run(StateModel::Try(ex, Box::new(a), Box::new(e2)), ts) == (
                StateModel::Try(re, Box::new(a), Box::new(e2)),
                re,
                Seq::<TaskCommand>::empty(),
            ));
            assert(ce + Seq::<TaskCommand>::empty() =~= ce);
            assert(spec_run(m2, ts) == (try_seq_node(re, fa, c, i, 0, e2), re, ce));
        }
        assert(if_else_try_phase(re, c, i, e2, re, fa, 0));
    }
}

/// A behavior an actor carries out: its label and its running tree.
pub struct Behavior {
    pub label: String,
    pub tree: BehaviorNodeState,
}

impl Behavior {
    pub fn new(label: &str, tree: BehaviorNode) -> (r: Self)
        ensures
            r.label@ == label@,
            r.tree.model() == spec_new(tree.model()),
    {
        Behavior { label: String::from_str(label), tree: BehaviorNodeState::new(tree) }
    }
}

/// The task state a behavior reports for the state its tree ended a run in; a tree that
/// has not started counts as a success.
pub open spec fn spec_task_state_of(n: NodeState) -> TaskState {
    match n {
        NodeState::Success => TaskState::Success,
        NodeState::Failed => TaskState::Failed,
        NodeState::Executing => TaskState::Executing,
        NodeState::NotStarted => TaskState::Success,
    }
}

pub fn task_state_of(n: NodeState) -> (r: TaskState)
    ensures
        r == spec_task_state_of(n),
{
    match n {
        NodeState::Success => TaskState::Success,
        NodeState::Failed => TaskState::Failed,
        NodeState::Executing => TaskState::Executing,
        NodeState::NotStarted => TaskState::Success,
    }
}

/// One tick of the behavior system for one behavior: while its current task is still
/// executing nothing happens; otherwise the tree runs once with the task's result. Returns
/// the behavior's new task state and whether the behavior is over (its tree no longer
/// executing), in which case the caller despawns it.
pub fn behavior_tick(behavior: &mut Behavior, state: TaskState, cmds: &mut Vec<TaskCommand>) -> (r: (TaskState, bool))
    ensures
        state == TaskState::Executing ==> {
            &&& r == (TaskState::Executing, false)
            &&& final(behavior).tree.model() == old(behavior).tree.model()
            &&& final(cmds)@ == old(cmds)@
        },
        state != TaskState::Executing ==> {
            let (t, n, c) = spec_run(old(behavior).tree.model(), state);
            &&& final(behavior).tree.model() == t
            &&& r.0 == spec_task_state_of(n)
            &&& r.1 == (n != NodeState::Executing)
            &&& final(cmds)@ == old(cmds)@ + c
        },
        final(behavior).label@ == old(behavior).label@,
{
    if state == TaskState::Executing {
        return (TaskState::Executing, false);
    }
    let node_state = behavior.tree.run(state, cmds);
    (task_state_of(node_state), node_state != NodeState::Executing)
}

} // verus!
