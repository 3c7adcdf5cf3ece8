use vstd::prelude::*;

verus! {

/// The state of the action an actor is carrying out.
#[derive(Clone, Copy, PartialEq, Eq, Debug, Structural)]
pub enum ActState {
    Executing,
    Success,
    Failed,
}

/// Marks an actor that has an action.
pub struct HasAct;

/// How far a brain has got through its list of actions.
#[derive(Debug, Clone, Copy)]
pub struct Behavior {
    pub idx: usize,
}

/// What a brain asks of its behavior entity when it moves on: take off the previous
/// action, if any, and put on the action at `insert`.
#[derive(Debug, Clone, Copy, PartialEq, Eq, Structural)]
pub struct ActSwitch {
    pub remove: Option<usize>,
    pub insert: usize,
}

/// One step of a brain with `action_count` actions: nothing happens once every action has
/// been started or while the current one executes; otherwise the brain switches to the
/// next action, which then executes.
pub fn brain_pick_act(behavior: &mut Behavior, state: &mut ActState, action_count: usize) -> (r: Option<ActSwitch>)
    ensures
        old(behavior).idx >= action_count || *old(state) == ActState::Executing ==> {
            &&& r.is_none()
            &&& final(behavior).idx == old(behavior).idx
            &&& *final(state) == *old(state)
        },
        old(behavior).idx < action_count && *old(state) != ActState::Executing ==> {
            &&& r == Some(ActSwitch {
                remove: if old(behavior).idx > 0 { Some((old(behavior).idx - 1) as usize) } else { None },
                insert: old(behavior).idx,
            })
            &&& final(behavior).idx == old(behavior).idx + 1
            &&& *final(state) == ActState::Executing
        },
{
    if behavior.idx >= action_count {
        return None;
    }
    if *state == ActState::Executing {
        return None;
    }
    let remove = if behavior.idx > 0 {
        Some(behavior.idx - 1)
    } else {
        None
    };
    let insert = behavior.idx;
    *state = ActState::Executing;
    behavior.idx = behavior.idx + 1;
    Some(ActSwitch { remove, insert })
}

} // verus!
